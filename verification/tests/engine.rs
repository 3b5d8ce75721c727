//! The store, the catalog and the executor, exercised end to end.

use nexum_core::{
    Catalog, Column, DataType, Decimal, Executor, ExecutionResult, Expr, Operand, OrderByClause,
    SelectItem, Statement, StorageEngine, Value,
};

fn mem_executor() -> Executor {
    Executor::new(StorageEngine::memory().unwrap()).unwrap()
}

fn int_col(name: &str) -> Column {
    Column { name: name.to_string(), data_type: DataType::Integer }
}

fn text_col(name: &str) -> Column {
    Column { name: name.to_string(), data_type: DataType::Text }
}

fn lit(v: Value) -> Operand {
    Operand::Literal(v)
}

fn col(name: &str) -> Operand {
    Operand::Column(name.to_string())
}

fn select_all(table: &str) -> Statement {
    Statement::Select {
        table: table.to_string(),
        projection: vec![SelectItem::Wildcard],
        where_clause: None,
        order_by: None,
        limit: None,
    }
}

#[test]
fn test_basic_kv_operations() {
    let mut engine = StorageEngine::memory().unwrap();

    let key = b"test_key".to_vec();
    let value = b"test_value".to_vec();

    engine.set(&key, &value).unwrap();

    let retrieved = engine.get(&key).unwrap();
    assert!(retrieved.is_some());
    assert_eq!(retrieved.unwrap(), value);

    engine.delete(&key).unwrap();
    let deleted = engine.get(&key).unwrap();
    assert!(deleted.is_none());
}

#[test]
fn test_persistence() {
    let temp_dir = tempfile::tempdir().unwrap();
    let db_path = temp_dir.path().join("test_db");
    let path = db_path.to_str().unwrap();

    {
        let mut engine = StorageEngine::new(path).unwrap();
        engine.set(&b"persist_key".to_vec(), &b"persist_value".to_vec()).unwrap();
        engine.flush().unwrap();
    }

    {
        let engine = StorageEngine::new(path).unwrap();
        let value = engine.get(&b"persist_key".to_vec()).unwrap();
        assert!(value.is_some());
        assert_eq!(value.unwrap(), b"persist_value".to_vec());
    }
}

#[test]
fn test_scan_prefix() {
    let mut engine = StorageEngine::memory().unwrap();

    engine.set(&b"user:1".to_vec(), &b"alice".to_vec()).unwrap();
    engine.set(&b"user:2".to_vec(), &b"bob".to_vec()).unwrap();
    engine.set(&b"item:1".to_vec(), &b"laptop".to_vec()).unwrap();

    let users = engine.scan_prefix(&b"user:".to_vec()).unwrap();
    assert_eq!(users.len(), 2);
}

#[test]
fn test_catalog_operations() {
    let storage = StorageEngine::memory().unwrap();
    let mut catalog = Catalog::new(storage);

    let columns = vec![int_col("id"), text_col("name")];

    catalog.create_table("users", columns).unwrap();

    let schema = catalog.get_table("users").unwrap();
    assert!(schema.is_some());

    let schema = schema.unwrap();
    assert_eq!(schema.name, "users");
    assert_eq!(schema.columns.len(), 2);

    let tables = catalog.list_tables().unwrap();
    assert_eq!(tables.len(), 1);
    assert_eq!(tables[0], "users");
}

#[test]
fn test_catalog_persistence() {
    let temp_dir = tempfile::tempdir().unwrap();
    let db_path = temp_dir.path().join("catalog_db");
    let path = db_path.to_str().unwrap();

    {
        let storage = StorageEngine::new(path).unwrap();
        let mut catalog = Catalog::new(storage);
        catalog.create_table("persist_table", vec![int_col("id")]).unwrap();
    }

    {
        let storage = StorageEngine::new(path).unwrap();
        let catalog = Catalog::new(storage);

        let schema = catalog.get_table("persist_table").unwrap();
        assert!(schema.is_some());
        assert_eq!(schema.unwrap().name, "persist_table");

        let tables = catalog.list_tables().unwrap();
        assert_eq!(tables, vec!["persist_table".to_string()]);
    }
}

#[test]
fn test_end_to_end_execution() {
    let mut executor = mem_executor();

    let create = Statement::CreateTable {
        name: "test_table".to_string(),
        columns: vec![int_col("id"), text_col("name")],
    };

    let result = executor.execute(create).unwrap();
    match result {
        ExecutionResult::Created { table } => assert_eq!(table, "test_table"),
        _ => panic!("expected a created result"),
    }

    let insert = Statement::Insert {
        table: "test_table".to_string(),
        columns: Some(vec!["id".to_string(), "name".to_string()]),
        values: vec![
            vec![Value::Integer(1), Value::Text("Alice".to_string())],
            vec![Value::Integer(2), Value::Text("Bob".to_string())],
        ],
    };

    let result = executor.execute(insert).unwrap();
    match result {
        ExecutionResult::Inserted { rows, .. } => assert_eq!(rows, 2),
        _ => panic!("expected an inserted result"),
    }

    let result = executor.execute(select_all("test_table")).unwrap();
    match result {
        ExecutionResult::Selected { rows, .. } => {
            assert_eq!(rows.len(), 2);
        },
        _ => panic!("expected a selected result"),
    }
}

#[test]
fn test_delete_with_where_clause() {
    let mut executor = mem_executor();

    let create = Statement::CreateTable {
        name: "test_delete".to_string(),
        columns: vec![int_col("id"), text_col("name")],
    };
    executor.execute(create).unwrap();

    let insert = Statement::Insert {
        table: "test_delete".to_string(),
        columns: Some(vec!["id".to_string(), "name".to_string()]),
        values: vec![
            vec![Value::Integer(1), Value::Text("Alice".to_string())],
            vec![Value::Integer(2), Value::Text("Bob".to_string())],
            vec![Value::Integer(3), Value::Text("Charlie".to_string())],
        ],
    };
    executor.execute(insert).unwrap();

    let where_expr = Expr::Compare {
        left: col("id"),
        op: nexum_core::CmpOp::Eq,
        right: lit(Value::Integer(2)),
    };

    let delete = Statement::Delete {
        table: "test_delete".to_string(),
        where_clause: Some(where_expr),
    };

    let result = executor.execute(delete).unwrap();
    match result {
        ExecutionResult::Deleted { table, rows } => {
            assert_eq!(table, "test_delete");
            assert_eq!(rows, 1);
        },
        _ => panic!("expected a deleted result"),
    }

    let result = executor.execute(select_all("test_delete")).unwrap();
    match result {
        ExecutionResult::Selected { rows, .. } => {
            assert_eq!(rows.len(), 2);
        },
        _ => panic!("expected a selected result"),
    }
}

#[test]
fn test_delete_all_rows() {
    let mut executor = mem_executor();

    let create = Statement::CreateTable {
        name: "test_delete_all".to_string(),
        columns: vec![int_col("id")],
    };
    executor.execute(create).unwrap();

    let insert = Statement::Insert {
        table: "test_delete_all".to_string(),
        columns: Some(vec!["id".to_string()]),
        values: vec![vec![Value::Integer(1)], vec![Value::Integer(2)]],
    };
    executor.execute(insert).unwrap();

    let delete = Statement::Delete { table: "test_delete_all".to_string(), where_clause: None };

    let result = executor.execute(delete).unwrap();
    match result {
        ExecutionResult::Deleted { rows, .. } => {
            assert_eq!(rows, 2);
        },
        _ => panic!("expected a deleted result"),
    }

    let result = executor.execute(select_all("test_delete_all")).unwrap();
    match result {
        ExecutionResult::Selected { rows, .. } => {
            assert_eq!(rows.len(), 0);
        },
        _ => panic!("expected a selected result"),
    }
}

#[test]
fn test_advanced_sql_features() {
    let mut executor = mem_executor();

    let create = Statement::CreateTable {
        name: "items".to_string(),
        columns: vec![int_col("id"), text_col("name"), int_col("price")],
    };
    executor.execute(create).unwrap();

    let insert = Statement::Insert {
        table: "items".to_string(),
        columns: Some(vec!["id".to_string(), "name".to_string(), "price".to_string()]),
        values: vec![
            vec![Value::Integer(1), Value::Text("TestA".to_string()), Value::Integer(100)],
            vec![Value::Integer(2), Value::Text("TestB".to_string()), Value::Integer(200)],
            vec![Value::Integer(3), Value::Text("OtherC".to_string()), Value::Integer(50)],
            vec![Value::Integer(4), Value::Text("TestC".to_string()), Value::Integer(150)],
        ],
    };
    executor.execute(insert).unwrap();

    let select = Statement::Select {
        table: "items".to_string(),
        projection: vec![SelectItem::Wildcard],
        where_clause: Some(Expr::Like {
            expr: col("name"),
            pattern: lit(Value::Text("Test%".to_string())),
            negated: false,
            escape: None,
        }),
        order_by: Some(vec![OrderByClause { column: "price".to_string(), ascending: false }]),
        limit: Some(2),
    };
    let result = executor.execute(select).unwrap();

    match result {
        ExecutionResult::Selected { rows, .. } => {
            assert_eq!(rows.len(), 2);
            assert_eq!(rows[0].values[0], Value::Integer(2));
            assert_eq!(rows[0].values[2], Value::Integer(200));
            assert_eq!(rows[1].values[0], Value::Integer(4));
            assert_eq!(rows[1].values[2], Value::Integer(150));
        },
        _ => panic!("expected a selected result"),
    }
}

#[test]
fn test_in_operator_integration() {
    let mut executor = mem_executor();

    let create = Statement::CreateTable {
        name: "orders".to_string(),
        columns: vec![int_col("id"), text_col("status")],
    };
    executor.execute(create).unwrap();

    let insert = Statement::Insert {
        table: "orders".to_string(),
        columns: None,
        values: vec![
            vec![Value::Integer(1), Value::Text("active".to_string())],
            vec![Value::Integer(2), Value::Text("pending".to_string())],
            vec![Value::Integer(3), Value::Text("completed".to_string())],
            vec![Value::Integer(4), Value::Text("active".to_string())],
        ],
    };
    executor.execute(insert).unwrap();

    let select = Statement::Select {
        table: "orders".to_string(),
        projection: vec![SelectItem::Wildcard],
        where_clause: Some(Expr::InList {
            expr: col("status"),
            list: vec![
                lit(Value::Text("active".to_string())),
                lit(Value::Text("pending".to_string())),
            ],
            negated: false,
        }),
        order_by: None,
        limit: None,
    };
    let result = executor.execute(select).unwrap();

    match result {
        ExecutionResult::Selected { rows, .. } => {
            assert_eq!(rows.len(), 3);
        },
        _ => panic!("expected a selected result"),
    }
}

#[test]
fn test_between_with_order_limit() {
    let mut executor = mem_executor();

    let create = Statement::CreateTable {
        name: "products".to_string(),
        columns: vec![int_col("id"), int_col("price")],
    };
    executor.execute(create).unwrap();

    let insert = Statement::Insert {
        table: "products".to_string(),
        columns: None,
        values: vec![
            vec![Value::Integer(1), Value::Integer(50)],
            vec![Value::Integer(2), Value::Integer(150)],
            vec![Value::Integer(3), Value::Integer(250)],
            vec![Value::Integer(4), Value::Integer(175)],
            vec![Value::Integer(5), Value::Integer(125)],
        ],
    };
    executor.execute(insert).unwrap();

    let select = Statement::Select {
        table: "products".to_string(),
        projection: vec![SelectItem::Wildcard],
        where_clause: Some(Expr::Between {
            expr: col("price"),
            low: lit(Value::Integer(100)),
            high: lit(Value::Integer(200)),
            negated: false,
        }),
        order_by: Some(vec![OrderByClause { column: "price".to_string(), ascending: true }]),
        limit: Some(3),
    };
    let result = executor.execute(select).unwrap();

    match result {
        ExecutionResult::Selected { rows, .. } => {
            assert_eq!(rows.len(), 3);
            let ids: Vec<&Value> = rows.iter().map(|r| &r.values[0]).collect();
            assert_eq!(ids, vec![&Value::Integer(5), &Value::Integer(2), &Value::Integer(4)]);
            let prices: Vec<&Value> = rows.iter().map(|r| &r.values[1]).collect();
            assert_eq!(
                prices,
                vec![&Value::Integer(125), &Value::Integer(150), &Value::Integer(175)]
            );
        },
        _ => panic!("expected a selected result"),
    }
}

#[test]
fn test_update_coercion_and_partial_insert() {
    let mut executor = mem_executor();

    let create = Statement::CreateTable {
        name: "t".to_string(),
        columns: vec![
            int_col("id"),
            Column { name: "score".to_string(), data_type: DataType::Float },
            Column { name: "active".to_string(), data_type: DataType::Boolean },
            text_col("note"),
        ],
    };
    executor.execute(create).unwrap();

    // text, integer, text and integer sources all coerce to their columns
    let insert = Statement::Insert {
        table: "t".to_string(),
        columns: None,
        values: vec![vec![
            Value::Text("42".to_string()),
            Value::Integer(7),
            Value::Text("true".to_string()),
            Value::Integer(9),
        ]],
    };
    executor.execute(insert).unwrap();

    let update = Statement::Update {
        table: "t".to_string(),
        assignments: vec![
            ("score".to_string(), Value::Text("3.5".to_string())),
            ("active".to_string(), Value::Integer(0)),
        ],
        where_clause: None,
    };
    let result = executor.execute(update).unwrap();
    match result {
        ExecutionResult::Updated { rows, .. } => assert_eq!(rows, 1),
        _ => panic!("expected an updated result"),
    }

    let result = executor.execute(select_all("t")).unwrap();
    match result {
        ExecutionResult::Selected { rows, .. } => {
            assert_eq!(rows.len(), 1);
            assert_eq!(rows[0].values[0], Value::Integer(42));
            assert_eq!(
                rows[0].values[1],
                Value::Float(Decimal { negative: false, mantissa: 35, scale: 1 })
            );
            assert_eq!(rows[0].values[2], Value::Boolean(false));
            assert_eq!(rows[0].values[3], Value::Text("9".to_string()));
        },
        _ => panic!("expected a selected result"),
    }
}

#[test]
fn test_insert_with_unmentioned_columns_takes_null() {
    let mut executor = mem_executor();

    let create = Statement::CreateTable {
        name: "people".to_string(),
        columns: vec![int_col("id"), text_col("name"), int_col("age")],
    };
    executor.execute(create).unwrap();

    let insert = Statement::Insert {
        table: "people".to_string(),
        columns: Some(vec!["name".to_string(), "id".to_string()]),
        values: vec![vec![Value::Text("Alice".to_string()), Value::Integer(1)]],
    };
    executor.execute(insert).unwrap();

    let result = executor.execute(select_all("people")).unwrap();
    match result {
        ExecutionResult::Selected { rows, .. } => {
            assert_eq!(rows.len(), 1);
            assert_eq!(rows[0].values[0], Value::Integer(1));
            assert_eq!(rows[0].values[1], Value::Text("Alice".to_string()));
            assert_eq!(rows[0].values[2], Value::Null);
        },
        _ => panic!("expected a selected result"),
    }
}

#[test]
fn test_update_type_mismatch_writes_nothing() {
    let mut executor = mem_executor();

    let create = Statement::CreateTable {
        name: "t".to_string(),
        columns: vec![int_col("id"), int_col("count")],
    };
    executor.execute(create).unwrap();

    let insert = Statement::Insert {
        table: "t".to_string(),
        columns: None,
        values: vec![vec![Value::Integer(1), Value::Integer(10)]],
    };
    executor.execute(insert).unwrap();

    let update = Statement::Update {
        table: "t".to_string(),
        assignments: vec![("count".to_string(), Value::Text("not a number".to_string()))],
        where_clause: None,
    };
    assert!(executor.execute(update).is_err());

    let result = executor.execute(select_all("t")).unwrap();
    match result {
        ExecutionResult::Selected { rows, .. } => {
            assert_eq!(rows.len(), 1);
            assert_eq!(rows[0].values[0], Value::Integer(1));
            assert_eq!(rows[0].values[1], Value::Integer(10));
        },
        _ => panic!("expected a selected result"),
    }
}

#[test]
fn test_insert_arity_mismatch_writes_nothing() {
    let mut executor = mem_executor();

    let create = Statement::CreateTable {
        name: "t".to_string(),
        columns: vec![int_col("id"), int_col("v")],
    };
    executor.execute(create).unwrap();

    let insert = Statement::Insert {
        table: "t".to_string(),
        columns: None,
        values: vec![vec![Value::Integer(1)]],
    };
    assert!(executor.execute(insert).is_err());

    let result = executor.execute(select_all("t")).unwrap();
    match result {
        ExecutionResult::Selected { rows, .. } => assert_eq!(rows.len(), 0),
        _ => panic!("expected a selected result"),
    }
}

#[test]
fn test_delete_with_predicate_error_deletes_nothing() {
    let mut executor = mem_executor();

    let create = Statement::CreateTable {
        name: "t".to_string(),
        columns: vec![int_col("id")],
    };
    executor.execute(create).unwrap();

    let insert = Statement::Insert {
        table: "t".to_string(),
        columns: None,
        values: vec![vec![Value::Integer(1)], vec![Value::Integer(2)]],
    };
    executor.execute(insert).unwrap();

    // the predicate names a column the table does not have
    let delete = Statement::Delete {
        table: "t".to_string(),
        where_clause: Some(Expr::Compare {
            left: col("missing"),
            op: nexum_core::CmpOp::Eq,
            right: lit(Value::Integer(1)),
        }),
    };
    assert!(executor.execute(delete).is_err());

    let result = executor.execute(select_all("t")).unwrap();
    match result {
        ExecutionResult::Selected { rows, .. } => assert_eq!(rows.len(), 2),
        _ => panic!("expected a selected result"),
    }
}

#[test]
fn test_drop_if_exists_on_missing_table_is_noop() {
    let mut executor = mem_executor();

    let drop = Statement::DropTable { name: "ghostly".to_string(), if_exists: true };
    match executor.execute(drop).unwrap() {
        ExecutionResult::Deleted { rows, .. } => assert_eq!(rows, 0),
        _ => panic!("expected a deleted result"),
    }

    let drop_hard = Statement::DropTable { name: "ghostly".to_string(), if_exists: false };
    assert!(executor.execute(drop_hard).is_err());
}

#[test]
fn test_create_drop_create_yields_empty_table() {
    let mut executor = mem_executor();

    let make = || Statement::CreateTable {
        name: "cycle".to_string(),
        columns: vec![int_col("id")],
    };
    executor.execute(make()).unwrap();

    let insert = Statement::Insert {
        table: "cycle".to_string(),
        columns: None,
        values: vec![vec![Value::Integer(7)]],
    };
    executor.execute(insert).unwrap();

    let drop = Statement::DropTable { name: "cycle".to_string(), if_exists: false };
    match executor.execute(drop).unwrap() {
        ExecutionResult::Deleted { rows, .. } => assert_eq!(rows, 1),
        _ => panic!("expected a deleted result"),
    }

    executor.execute(make()).unwrap();
    let result = executor.execute(select_all("cycle")).unwrap();
    match result {
        ExecutionResult::Selected { rows, .. } => assert_eq!(rows.len(), 0),
        _ => panic!("expected a selected result"),
    }
}

#[test]
fn test_show_tables_and_describe() {
    let mut executor = mem_executor();

    executor
        .execute(Statement::CreateTable {
            name: "alpha".to_string(),
            columns: vec![int_col("id")],
        })
        .unwrap();
    executor
        .execute(Statement::CreateTable {
            name: "beta".to_string(),
            columns: vec![text_col("name")],
        })
        .unwrap();

    match executor.execute(Statement::ShowTables).unwrap() {
        ExecutionResult::TableList { tables } => {
            assert_eq!(tables, vec!["alpha".to_string(), "beta".to_string()]);
        },
        _ => panic!("expected a table list"),
    }

    match executor.execute(Statement::DescribeTable { name: "beta".to_string() }).unwrap() {
        ExecutionResult::TableDescription { table, columns } => {
            assert_eq!(table, "beta");
            assert_eq!(columns.len(), 1);
            assert_eq!(columns[0].name, "name");
            assert_eq!(columns[0].data_type, DataType::Text);
        },
        _ => panic!("expected a table description"),
    }

    assert!(executor
        .execute(Statement::DescribeTable { name: "missing".to_string() })
        .is_err());
}

#[test]
fn test_cached_select_returns_same_rows() {
    let mut executor = mem_executor().with_cache();

    executor
        .execute(Statement::CreateTable {
            name: "memo".to_string(),
            columns: vec![int_col("id")],
        })
        .unwrap();
    executor
        .execute(Statement::Insert {
            table: "memo".to_string(),
            columns: None,
            values: vec![vec![Value::Integer(5)]],
        })
        .unwrap();

    let first = executor.execute(select_all("memo")).unwrap();
    let second = executor.execute(select_all("memo")).unwrap();
    match (first, second) {
        (
            ExecutionResult::Selected { rows: a, .. },
            ExecutionResult::Selected { rows: b, .. },
        ) => {
            assert_eq!(a, b);
            assert_eq!(a.len(), 1);
        },
        _ => panic!("expected selected results"),
    }

    // a mutation invalidates the memo; the next read sees the new row
    executor
        .execute(Statement::Insert {
            table: "memo".to_string(),
            columns: None,
            values: vec![vec![Value::Integer(6)]],
        })
        .unwrap();
    match executor.execute(select_all("memo")).unwrap() {
        ExecutionResult::Selected { rows, .. } => assert_eq!(rows.len(), 2),
        _ => panic!("expected a selected result"),
    }
}

#[test]
fn test_select_with_alias_names_output() {
    let mut executor = mem_executor();

    executor
        .execute(Statement::CreateTable {
            name: "users".to_string(),
            columns: vec![int_col("id"), text_col("name")],
        })
        .unwrap();
    executor
        .execute(Statement::Insert {
            table: "users".to_string(),
            columns: None,
            values: vec![vec![Value::Integer(1), Value::Text("Ada".to_string())]],
        })
        .unwrap();

    let select = Statement::Select {
        table: "users".to_string(),
        projection: vec![SelectItem::Column {
            name: "name".to_string(),
            alias: Some("username".to_string()),
        }],
        where_clause: None,
        order_by: None,
        limit: None,
    };
    match executor.execute(select).unwrap() {
        ExecutionResult::Selected { columns, rows } => {
            assert_eq!(columns, vec!["username".to_string()]);
            assert_eq!(rows.len(), 1);
            assert_eq!(rows[0].values, vec![Value::Text("Ada".to_string())]);
        },
        _ => panic!("expected a selected result"),
    }
}

#[test]
fn test_order_by_ties_keep_insertion_order() {
    let mut executor = mem_executor();

    executor
        .execute(Statement::CreateTable {
            name: "ranked".to_string(),
            columns: vec![int_col("id"), int_col("score")],
        })
        .unwrap();
    executor
        .execute(Statement::Insert {
            table: "ranked".to_string(),
            columns: None,
            values: vec![
                vec![Value::Integer(1), Value::Integer(10)],
                vec![Value::Integer(2), Value::Integer(5)],
                vec![Value::Integer(3), Value::Integer(10)],
                vec![Value::Integer(4), Value::Integer(5)],
            ],
        })
        .unwrap();

    let select = Statement::Select {
        table: "ranked".to_string(),
        projection: vec![SelectItem::Wildcard],
        where_clause: None,
        order_by: Some(vec![OrderByClause { column: "score".to_string(), ascending: true }]),
        limit: None,
    };
    match executor.execute(select).unwrap() {
        ExecutionResult::Selected { rows, .. } => {
            let ids: Vec<&Value> = rows.iter().map(|r| &r.values[0]).collect();
            // equal scores keep their insertion order
            assert_eq!(
                ids,
                vec![
                    &Value::Integer(2),
                    &Value::Integer(4),
                    &Value::Integer(1),
                    &Value::Integer(3)
                ]
            );
        },
        _ => panic!("expected a selected result"),
    }
}

#[test]
fn test_update_twice_is_idempotent_in_effect() {
    let mut executor = mem_executor();

    executor
        .execute(Statement::CreateTable {
            name: "twice".to_string(),
            columns: vec![int_col("id"), int_col("v")],
        })
        .unwrap();
    executor
        .execute(Statement::Insert {
            table: "twice".to_string(),
            columns: None,
            values: vec![
                vec![Value::Integer(1), Value::Integer(10)],
                vec![Value::Integer(2), Value::Integer(20)],
            ],
        })
        .unwrap();

    let update = || Statement::Update {
        table: "twice".to_string(),
        assignments: vec![("v".to_string(), Value::Integer(99))],
        where_clause: Some(Expr::Compare {
            left: col("id"),
            op: nexum_core::CmpOp::Eq,
            right: lit(Value::Integer(1)),
        }),
    };
    executor.execute(update()).unwrap();
    let first = match executor.execute(select_all("twice")).unwrap() {
        ExecutionResult::Selected { rows, .. } => rows,
        _ => panic!("expected a selected result"),
    };
    executor.execute(update()).unwrap();
    let second = match executor.execute(select_all("twice")).unwrap() {
        ExecutionResult::Selected { rows, .. } => rows,
        _ => panic!("expected a selected result"),
    };
    assert_eq!(first, second);
}

#[test]
fn test_between_reversed_bounds_matches_nothing() {
    let mut executor = mem_executor();

    executor
        .execute(Statement::CreateTable {
            name: "bounds".to_string(),
            columns: vec![int_col("v")],
        })
        .unwrap();
    executor
        .execute(Statement::Insert {
            table: "bounds".to_string(),
            columns: None,
            values: vec![vec![Value::Integer(150)]],
        })
        .unwrap();

    let select = Statement::Select {
        table: "bounds".to_string(),
        projection: vec![SelectItem::Wildcard],
        where_clause: Some(Expr::Between {
            expr: col("v"),
            low: lit(Value::Integer(200)),
            high: lit(Value::Integer(100)),
            negated: false,
        }),
        order_by: None,
        limit: None,
    };
    match executor.execute(select).unwrap() {
        ExecutionResult::Selected { rows, .. } => assert_eq!(rows.len(), 0),
        _ => panic!("expected a selected result"),
    }
}
