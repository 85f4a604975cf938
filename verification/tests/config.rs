use crible::backends::{BackendOptions, Error};
use crible::encoding::Encoder;
use crible::executor::{Admission, Error as ExecutorError, ExecutorBuilder};
use crible::index::Index;
use crible::operations;
use crible::operations::{admit_operation, OperationError, OperationKind};
use crible::server::{format_latency, APIError};
use crible::utils::tmp_path;

#[test]
fn test_memory_option() {
    assert_eq!(BackendOptions::Memory, BackendOptions::from_config("memory://").unwrap());
}

#[test]
fn test_redis_option() {
    assert_eq!(
        BackendOptions::Redis {
            key: "crible2".into(),
            url: "redis://localhost:4444/2".into(),
        },
        BackendOptions::from_config("redis://localhost:4444/2?prefix=crible2").unwrap(),
    );
    assert_eq!(
        BackendOptions::Redis { key: "crible".into(), url: "redis://localhost".into() },
        BackendOptions::from_config("redis://localhost").unwrap(),
    );
}

#[test]
fn fs_options() {
    assert_eq!(
        BackendOptions::Fs { path: "index.bin".into(), encoder: Encoder::Bin },
        BackendOptions::from_config("fs://index.bin").unwrap(),
    );
    assert_eq!(
        BackendOptions::Fs { path: "index.bin".into(), encoder: Encoder::Bin },
        BackendOptions::from_config("fs://index.bin/").unwrap(),
    );
    assert_eq!(
        BackendOptions::Fs { path: "datasets/index.json".into(), encoder: Encoder::Json },
        BackendOptions::from_config("fs://datasets/index.json").unwrap(),
    );
    assert_eq!(
        BackendOptions::Fs { path: "data.bin".into(), encoder: Encoder::Bin },
        BackendOptions::from_config("file://").unwrap(),
    );
    assert_eq!(
        BackendOptions::Fs { path: "index.weird".into(), encoder: Encoder::Bin },
        BackendOptions::from_config("fs://index.weird").unwrap(),
    );
    assert_eq!(
        BackendOptions::Fs { path: "index.bin".into(), encoder: Encoder::Json },
        BackendOptions::from_config("fs://index.bin?format=ndjson").unwrap(),
    );
    assert!(matches!(
        BackendOptions::from_config("fs://index.bin?format=yaml"),
        Err(Error::UnknownFormat(_))
    ));
    assert!(matches!(BackendOptions::from_config("nope"), Err(Error::NoScheme)));
    match BackendOptions::from_config("ftp://x") {
        Err(Error::UnknownScheme(scheme)) => assert_eq!(scheme, "ftp"),
        _ => panic!("expected an unknown-scheme failure"),
    }
}

#[test]
fn builder_resolution() {
    let (pool, queue) = ExecutorBuilder::new().resolve(8);
    assert_eq!((pool, queue), (8, 80));

    let (pool, queue) = ExecutorBuilder::new().queue_size(3).resolve(8);
    assert_eq!((pool, queue), (8, 3));

    // choosing a pool size first also pins the queue to it
    let (pool, queue) = ExecutorBuilder::new().pool_size(4).resolve(8);
    assert_eq!((pool, queue), (4, 4));

    let (pool, queue) = ExecutorBuilder::new().pool_size(4).queue_size(40).resolve(8);
    assert_eq!((pool, queue), (4, 40));

    let builder = ExecutorBuilder::new().read_only(true);
    assert!(builder.read_only);
}

#[test]
fn admission_overflow() {
    let capacity = 3;
    let mut admission = Admission::new(capacity);
    for _ in 0..capacity {
        assert!(admission.try_acquire().is_ok());
    }
    // the next concurrent request is refused, not queued
    assert_eq!(admission.try_acquire(), Err(ExecutorError::TooManyRequests));
    admission.release();
    assert!(admission.try_acquire().is_ok());
    assert_eq!(admission.try_acquire(), Err(ExecutorError::TooManyRequests));
}

#[test]
fn operations_run() {
    let mut index = Index::new();
    operations::SetMany {
        values: vec![
            ("foo".to_owned(), vec![1, 2, 3, 4, 9]),
            ("bar".to_owned(), vec![1, 3, 5, 6, 7]),
            ("baz".to_owned(), vec![4, 6, 8, 9]),
        ],
    }
    .run(&mut index);

    let qr = operations::Query {
        query: "foo and bar".to_owned(),
        include_cardinalities: Some(true),
    }
    .run(&index)
    .unwrap();
    assert_eq!(qr.values, vec![1, 3]);
    assert_eq!(
        qr.cardinalities.unwrap(),
        vec![("bar".to_owned(), 2), ("foo".to_owned(), 2)],
    );

    let count = operations::Count { query: "foo or bar".to_owned() }.run(&index).unwrap();
    assert_eq!(count, 8);

    let stats = operations::Stats {}.run(&index);
    assert_eq!(stats.root.cardinality, 9);
    assert_eq!(stats.properties.len(), 3);
    assert_eq!(stats.properties[0].0, "bar");

    assert!(operations::SetOp { property: "new".to_owned(), bit: 7 }.run(&mut index));
    assert!(!operations::SetOp { property: "new".to_owned(), bit: 7 }.run(&mut index));
    assert!(operations::Unset { property: "new".to_owned(), bit: 7 }.run(&mut index));

    operations::UnsetMany { values: vec![("foo".to_owned(), vec![9])] }.run(&mut index);
    assert_eq!(
        operations::Count { query: "foo".to_owned() }.run(&index).unwrap(),
        4
    );

    assert_eq!(operations::GetBit { bit: 6 }.run(&index), vec!["bar", "baz"]);

    assert!(operations::SetBit { bit: 6, properties: vec!["foo".to_owned()] }.run(&mut index));
    assert_eq!(operations::GetBit { bit: 6 }.run(&index), vec!["foo"]);

    operations::DeleteBits { bits: vec![1, 3] }.run(&mut index);
    // foo had held 1, 2, 3, 4 and gained 6 above; removing 1 and 3 leaves 3 bits
    assert_eq!(
        operations::Count { query: "foo".to_owned() }.run(&index).unwrap(),
        3
    );

    assert!(matches!(
        operations::Count { query: "foo and".to_owned() }.run(&index),
        Err(operations::OperationError::Expression(_))
    ));
    assert!(matches!(
        operations::Count { query: "ghost".to_owned() }.run(&index),
        Err(operations::OperationError::Index(_))
    ));
}

#[test]
fn read_only_gate() {
    let reads = [
        OperationKind::Query,
        OperationKind::Count,
        OperationKind::Stats,
        OperationKind::GetBit,
    ];
    let writes = [
        OperationKind::SetOp,
        OperationKind::SetMany,
        OperationKind::Unset,
        OperationKind::UnsetMany,
        OperationKind::SetBit,
        OperationKind::DeleteBits,
    ];
    for kind in reads {
        assert!(admit_operation(kind, false).is_ok());
        assert!(admit_operation(kind, true).is_ok());
    }
    for kind in writes {
        assert!(admit_operation(kind, false).is_ok());
        assert!(matches!(admit_operation(kind, true), Err(OperationError::ReadOnly)));
    }
}

#[test]
fn api_error_status_codes() {
    assert_eq!(
        APIError::Operation(operations::OperationError::ReadOnly).status_code(),
        403
    );
    assert_eq!(
        APIError::Operation(operations::OperationError::Expression(
            crible::expression::Error::InputStringToolLong
        ))
        .status_code(),
        400
    );
    assert_eq!(
        APIError::Operation(operations::OperationError::Index(
            crible::index::Error::PropertyDoesNotExist("x".to_owned())
        ))
        .status_code(),
        400
    );
    assert_eq!(APIError::TooManyRequests.status_code(), 429);
    assert_eq!(APIError::Internal("boom".to_owned()).status_code(), 500);
}

#[test]
fn small_helpers() {
    assert_eq!(tmp_path("data.bin"), "data.bin.tmp");
    assert_eq!(tmp_path("data"), "data.tmp");
    assert_eq!(format_latency(125), "125\u{03BC}s");
    assert_eq!(format_latency(0), "0\u{03BC}s");
}
