use surp_core::ast::{Field, Product, Reference, Scalar, Sequence, Sum, SumPayload, Value};
use surp_core::cql::{query, query_one};
use surp_core::error::SurpError;

fn s(text: &str) -> Value {
    Value::Scalar(Scalar::Str(text.into()))
}

fn sample_root() -> Value {
    Value::Product(Product {
        type_label: Some("Root".into()),
        fields: vec![
            Field {
                name: "user".into(),
                value: Value::Product(Product {
                    type_label: Some("User".into()),
                    fields: vec![
                        Field { name: "email".into(), value: s("alice@example.com") },
                        Field {
                            name: "tags".into(),
                            value: Value::Sequence(Sequence {
                                elem_type: Some("str".into()),
                                items: vec![s("admin"), s("ops")],
                            }),
                        },
                    ],
                }),
            },
            Field {
                name: "settings".into(),
                value: Value::Association(vec![(Value::Scalar(Scalar::Sym("theme".into())), s("dark"))]),
            },
        ],
    })
}

#[test]
fn query_nested_field() {
    let root = sample_root();
    let result = query(&root, ".user.email").unwrap();
    assert_eq!(result.len(), 1);
    assert!(matches!(&result[0], Value::Scalar(Scalar::Str(v)) if v == "alice@example.com"));
}

#[test]
fn query_flatten_and_index() {
    let root = sample_root();
    let all_tags = query(&root, ".user.tags[]").unwrap();
    assert_eq!(all_tags.len(), 2);

    let last_tag = query(&root, ".user.tags[-1]").unwrap();
    assert_eq!(last_tag.len(), 1);
    assert!(matches!(&last_tag[0], Value::Scalar(Scalar::Str(v)) if v == "ops"));
}

#[test]
fn query_map_key() {
    let root = sample_root();
    let result = query(&root, ".settings['theme]").unwrap();
    assert_eq!(result.len(), 1);
    assert!(matches!(&result[0], Value::Scalar(Scalar::Str(v)) if v == "dark"));
}

fn invalid_data(r: Result<Vec<Value>, SurpError>) -> String {
    match r {
        Err(SurpError::InvalidData(m)) => m,
        other => panic!("expected InvalidData, got {:?}", other),
    }
}

#[test]
fn query_errors() {
    let root = sample_root();
    assert_eq!(invalid_data(query(&root, "   ")), "empty CQL expression");
    assert_eq!(invalid_data(query(&root, "user")), "CQL expression must start with '.'");
    assert_eq!(invalid_data(query(&root, ".user[0")), "unterminated bracket in CQL expression");
    assert_eq!(invalid_data(query(&root, ".user[x]")), "unsupported CQL bracket selector [x]");
    assert_eq!(invalid_data(query(&root, ".user ?")), "unexpected CQL token near ' ?'");
}

#[test]
fn query_paths_and_indices() {
    let root = sample_root();
    // The bare path is the root itself; surrounding whitespace is trimmed.
    assert_eq!(query(&root, "  .  ").unwrap(), vec![sample_root()]);
    assert_eq!(query(&root, ".user.tags[0]").unwrap(), vec![s("admin")]);
    assert_eq!(query(&root, ".user.tags[ 1 ]").unwrap(), vec![s("ops")]);
    assert_eq!(query(&root, ".user.tags[+1]").unwrap(), vec![s("ops")]);
    assert_eq!(query(&root, ".user.tags[-2]").unwrap(), vec![s("admin")]);
    assert!(query(&root, ".user.tags[2]").unwrap().is_empty());
    assert!(query(&root, ".user.tags[-3]").unwrap().is_empty());
    assert!(query(&root, ".missing").unwrap().is_empty());
    assert_eq!(query(&root, ".user[\"email\"]").unwrap(), vec![s("alice@example.com")]);
    assert_eq!(query(&root, ".settings.theme").unwrap(), vec![s("dark")]);
    assert_eq!(query(&root, ".settings[]").unwrap(), vec![s("dark")]);
    assert_eq!(query(&root, "..user..email").unwrap(), vec![s("alice@example.com")]);
}

#[test]
fn query_through_references_sums_and_repeated_keys() {
    let assoc = Value::Association(vec![
        (s("k"), Value::Scalar(Scalar::U64(1))),
        (Value::Scalar(Scalar::Sym("k".into())), Value::Scalar(Scalar::U64(2))),
        (Value::Scalar(Scalar::U64(3)), Value::Scalar(Scalar::U64(3))),
    ]);
    assert_eq!(
        query(&assoc, ".k").unwrap(),
        vec![Value::Scalar(Scalar::U64(1)), Value::Scalar(Scalar::U64(2))]
    );
    let by_id = Value::Reference(Reference::ById(Box::new(sample_root())));
    assert_eq!(query(&by_id, ".user.email").unwrap(), vec![s("alice@example.com")]);
    let sum = Value::Sum(Sum {
        type_label: None,
        variant: "V".into(),
        payload: SumPayload::Struct(vec![Field { name: "x".into(), value: s("sx") }]),
    });
    assert_eq!(query(&sum, ".x").unwrap(), vec![s("sx")]);
    assert!(query(&sum, "['x]").is_err());
    assert!(query(&sum, ".['x]").unwrap().is_empty());
    let seq = Value::Sequence(Sequence { elem_type: None, items: vec![sample_root(), sample_root()] });
    assert_eq!(query(&seq, ".[].user.email").unwrap().len(), 2);
}

#[test]
fn query_one_gives_first_or_none() {
    let root = sample_root();
    assert_eq!(query_one(&root, ".user.tags[]").unwrap(), Some(s("admin")));
    assert_eq!(query_one(&root, ".nothing").unwrap(), None);
    assert!(query_one(&root, "").is_err());
}
