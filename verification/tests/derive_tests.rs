use layout_codec::{derive_layout, Layout, LayoutKind, TypeDesc};

fn leaf(name: &str, kind: LayoutKind) -> Layout {
    Layout {
        name: String::from(name),
        kind,
        fields: None,
    }
}

#[test]
fn simple_u8() {
    let desc = TypeDesc::Record(
        String::from("Person"),
        vec![(String::from("age"), TypeDesc::UInt8)],
    );
    let actual_layout = derive_layout(&desc, "unnamed");
    let expected_layout = Layout {
        name: String::from("Person"),
        kind: LayoutKind::Struct,
        fields: Some(vec![leaf("age", LayoutKind::U8)]),
    };
    assert_eq!(actual_layout, expected_layout);
}

#[test]
fn test_simple_vec_u8_auto_implement_layout() {
    let desc = TypeDesc::Record(
        String::from("Person"),
        vec![(
            String::from("favorite_numbers"),
            TypeDesc::Sequence(Box::new(TypeDesc::UInt8)),
        )],
    );
    let actual_layout = derive_layout(&desc, "unnamed");
    let expected_layout = Layout {
        name: String::from("Person"),
        kind: LayoutKind::Struct,
        fields: Some(vec![Layout {
            name: String::from("favorite_numbers"),
            kind: LayoutKind::Array,
            fields: Some(vec![leaf("unnamed", LayoutKind::U8)]),
        }]),
    };
    assert_eq!(actual_layout, expected_layout);
}

#[test]
fn test_simple_vec_string_auto_implement_layout() {
    let desc = TypeDesc::Record(
        String::from("Person"),
        vec![(
            String::from("favorite_names"),
            TypeDesc::Sequence(Box::new(TypeDesc::Text)),
        )],
    );
    let actual_layout = derive_layout(&desc, "unnamed");
    let expected_layout = Layout {
        name: String::from("Person"),
        kind: LayoutKind::Struct,
        fields: Some(vec![Layout {
            name: String::from("favorite_names"),
            kind: LayoutKind::Array,
            fields: Some(vec![leaf("unnamed", LayoutKind::String)]),
        }]),
    };
    assert_eq!(actual_layout, expected_layout);
}

#[test]
fn test_simple_f32_auto_implement_layout() {
    let desc = TypeDesc::Record(
        String::from("Person"),
        vec![(String::from("age"), TypeDesc::Float32)],
    );
    let actual_layout = derive_layout(&desc, "unnamed");
    let expected_layout = Layout {
        name: String::from("Person"),
        kind: LayoutKind::Struct,
        fields: Some(vec![leaf("age", LayoutKind::F32)]),
    };
    assert_eq!(actual_layout, expected_layout);
}

#[test]
fn nested_record_layout() {
    let blob = TypeDesc::Record(String::from("Blob"), vec![(String::from("age"), TypeDesc::UInt8)]);
    let desc = TypeDesc::Record(
        String::from("MyComponent"),
        vec![
            (String::from("age"), TypeDesc::UInt8),
            (String::from("name"), TypeDesc::Text),
            (
                String::from("height"),
                TypeDesc::Sequence(Box::new(TypeDesc::UInt16)),
            ),
            (String::from("blob"), blob),
        ],
    );
    let actual_layout = derive_layout(&desc, "unnamed");
    let expected_layout = Layout {
        name: String::from("MyComponent"),
        kind: LayoutKind::Struct,
        fields: Some(vec![
            leaf("age", LayoutKind::U8),
            leaf("name", LayoutKind::String),
            Layout {
                name: String::from("height"),
                kind: LayoutKind::Array,
                fields: Some(vec![leaf("unnamed", LayoutKind::U16)]),
            },
            Layout {
                name: String::from("Blob"),
                kind: LayoutKind::Struct,
                fields: Some(vec![leaf("age", LayoutKind::U8)]),
            },
        ]),
    };
    assert_eq!(actual_layout, expected_layout);
}
