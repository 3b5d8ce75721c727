//! The evaluator, the coercer, the number-and-text conversions, and the
//! management-statement reader, on concrete values.

use nexum_core::coerce::coerce_value;
use nexum_core::{
    CmpOp, Column, DataType, Decimal, Expr, ExpressionEvaluator, Operand, Plan, Planner,
    SelectItem, Statement, Value,
};

fn cols(names: &[&str]) -> Vec<String> {
    names.iter().map(|s| s.to_string()).collect()
}

fn lit(v: Value) -> Operand {
    Operand::Literal(v)
}

fn col(name: &str) -> Operand {
    Operand::Column(name.to_string())
}

#[test]
fn test_simple_comparison() {
    let evaluator = ExpressionEvaluator::new(cols(&["id", "name", "age"]));
    let row = vec![
        Value::Integer(1),
        Value::Text("Alice".to_string()),
        Value::Integer(30),
    ];
    let expr = Expr::Compare { left: col("age"), op: CmpOp::Gt, right: lit(Value::Integer(25)) };
    assert!(evaluator.evaluate(&expr, &row).unwrap());
}

#[test]
fn test_and_operator() {
    let evaluator = ExpressionEvaluator::new(cols(&["id", "age"]));
    let row = vec![Value::Integer(1), Value::Integer(30)];
    let expr = Expr::And(
        Box::new(Expr::Compare { left: col("id"), op: CmpOp::Eq, right: lit(Value::Integer(1)) }),
        Box::new(Expr::Compare {
            left: col("age"),
            op: CmpOp::Gt,
            right: lit(Value::Integer(25)),
        }),
    );
    assert!(evaluator.evaluate(&expr, &row).unwrap());
}

#[test]
fn test_text_comparison() {
    let evaluator = ExpressionEvaluator::new(cols(&["name"]));
    let row = vec![Value::Text("Alice".to_string())];
    let expr = Expr::Compare {
        left: col("name"),
        op: CmpOp::Eq,
        right: lit(Value::Text("Alice".to_string())),
    };
    assert!(evaluator.evaluate(&expr, &row).unwrap());
}

#[test]
fn test_like_operator() {
    let evaluator = ExpressionEvaluator::new(cols(&["name"]));
    let row = vec![Value::Text("TestABC".to_string())];
    let expr = Expr::Like {
        expr: col("name"),
        pattern: lit(Value::Text("Test%".to_string())),
        negated: false,
        escape: None,
    };
    assert!(evaluator.evaluate(&expr, &row).unwrap());
}

#[test]
fn test_in_operator() {
    let evaluator = ExpressionEvaluator::new(cols(&["status"]));
    let row = vec![Value::Text("active".to_string())];
    let expr = Expr::InList {
        expr: col("status"),
        list: vec![
            lit(Value::Text("active".to_string())),
            lit(Value::Text("pending".to_string())),
        ],
        negated: false,
    };
    assert!(evaluator.evaluate(&expr, &row).unwrap());
}

#[test]
fn test_between_operator() {
    let evaluator = ExpressionEvaluator::new(cols(&["price"]));
    let row = vec![Value::Integer(150)];
    let expr = Expr::Between {
        expr: col("price"),
        low: lit(Value::Integer(100)),
        high: lit(Value::Integer(200)),
        negated: false,
    };
    assert!(evaluator.evaluate(&expr, &row).unwrap());
}

#[test]
fn test_between_is_inclusive_on_both_ends() {
    let evaluator = ExpressionEvaluator::new(cols(&["price"]));
    let between = |x: i64| Expr::Between {
        expr: lit(Value::Integer(x)),
        low: lit(Value::Integer(100)),
        high: lit(Value::Integer(200)),
        negated: false,
    };
    let row: Vec<Value> = vec![Value::Integer(0)];
    assert!(evaluator.evaluate(&between(100), &row).unwrap());
    assert!(evaluator.evaluate(&between(200), &row).unwrap());
    assert!(!evaluator.evaluate(&between(99), &row).unwrap());
    assert!(!evaluator.evaluate(&between(201), &row).unwrap());
}

#[test]
fn test_empty_in_list_matches_nothing() {
    let evaluator = ExpressionEvaluator::new(cols(&["v"]));
    let row = vec![Value::Integer(1)];
    let inlist = Expr::InList { expr: col("v"), list: vec![], negated: false };
    assert!(!evaluator.evaluate(&inlist, &row).unwrap());
    let notin = Expr::InList { expr: col("v"), list: vec![], negated: true };
    assert!(evaluator.evaluate(&notin, &row).unwrap());
}

#[test]
fn test_like_is_case_sensitive() {
    let evaluator = ExpressionEvaluator::new(cols(&["name"]));
    let like = |text: &str| {
        let row = vec![Value::Text(text.to_string())];
        let expr = Expr::Like {
            expr: col("name"),
            pattern: lit(Value::Text("Test%".to_string())),
            negated: false,
            escape: None,
        };
        evaluator.evaluate(&expr, &row).unwrap()
    };
    assert!(like("Test"));
    assert!(like("TestABC"));
    assert!(!like("test"));
}

#[test]
fn test_like_underscore_matches_one_character() {
    let evaluator = ExpressionEvaluator::new(cols(&["name"]));
    let matches = |text: &str, pat: &str| {
        let row = vec![Value::Text(text.to_string())];
        let expr = Expr::Like {
            expr: col("name"),
            pattern: lit(Value::Text(pat.to_string())),
            negated: false,
            escape: None,
        };
        evaluator.evaluate(&expr, &row).unwrap()
    };
    assert!(matches("cat", "c_t"));
    assert!(!matches("ct", "c_t"));
    assert!(matches("a.b", "a.b"));
    // a regex metacharacter in the pattern matches only itself
    assert!(!matches("axb", "a.b"));
}

#[test]
fn test_null_equality() {
    let evaluator = ExpressionEvaluator::new(cols(&["v"]));
    let row = vec![Value::Null];
    let eq = Expr::Compare { left: col("v"), op: CmpOp::Eq, right: lit(Value::Null) };
    assert!(evaluator.evaluate(&eq, &row).unwrap());
    let ne = Expr::Compare { left: col("v"), op: CmpOp::NotEq, right: lit(Value::Null) };
    assert!(!evaluator.evaluate(&ne, &row).unwrap());
    // cross-tag comparison is an error
    let bad = Expr::Compare { left: col("v"), op: CmpOp::Eq, right: lit(Value::Integer(1)) };
    assert!(evaluator.evaluate(&bad, &row).is_err());
}

#[test]
fn test_values_equal_same_tag_only() {
    let evaluator = ExpressionEvaluator::new(vec![]);
    assert!(evaluator.values_equal(&Value::Integer(3), &Value::Integer(3)));
    assert!(!evaluator.values_equal(&Value::Integer(3), &Value::Integer(4)));
    assert!(!evaluator.values_equal(&Value::Integer(3), &Value::Text("3".to_string())));
    assert!(evaluator.values_equal(&Value::Null, &Value::Null));
    let a = Value::Float(Decimal { negative: false, mantissa: 35, scale: 1 });
    let b = Value::Float(Decimal { negative: false, mantissa: 35, scale: 1 });
    assert!(evaluator.values_equal(&a, &b));
}

#[test]
fn test_decimal_text_roundtrip() {
    let d = nexum_core::text::parse_decimal_text("3.50").unwrap();
    assert_eq!(d, Decimal { negative: false, mantissa: 35, scale: 1 });
    assert_eq!(nexum_core::text::decimal_to_text(&d), "3.5");

    let neg = nexum_core::text::parse_decimal_text("-0.25").unwrap();
    assert_eq!(neg, Decimal { negative: true, mantissa: 25, scale: 2 });
    assert_eq!(nexum_core::text::decimal_to_text(&neg), "-0.25");

    let whole = nexum_core::text::parse_decimal_text("7").unwrap();
    assert_eq!(whole, Decimal { negative: false, mantissa: 7, scale: 0 });
    assert_eq!(nexum_core::text::decimal_to_text(&whole), "7");

    assert!(nexum_core::text::parse_decimal_text("abc").is_none());
    assert!(nexum_core::text::parse_decimal_text("").is_none());
    assert!(nexum_core::text::parse_decimal_text(".").is_none());
}

#[test]
fn test_integer_text_roundtrip() {
    assert_eq!(nexum_core::text::parse_i64_text("42"), Some(42));
    assert_eq!(nexum_core::text::parse_i64_text("-7"), Some(-7));
    assert_eq!(nexum_core::text::parse_i64_text("+1"), Some(1));
    assert_eq!(nexum_core::text::parse_i64_text("9223372036854775807"), Some(i64::MAX));
    assert_eq!(nexum_core::text::parse_i64_text("-9223372036854775808"), Some(i64::MIN));
    assert_eq!(nexum_core::text::parse_i64_text("9223372036854775808"), None);
    assert_eq!(nexum_core::text::parse_i64_text("1.5"), None);
    assert_eq!(nexum_core::text::parse_i64_text(""), None);
    assert_eq!(nexum_core::text::i64_to_text(-42), "-42");
    assert_eq!(nexum_core::text::i64_to_text(0), "0");
}

#[test]
fn test_coercions() {
    assert_eq!(
        coerce_value(DataType::Integer, &Value::Text("42".to_string())),
        Some(Value::Integer(42))
    );
    assert_eq!(
        coerce_value(DataType::Float, &Value::Integer(7)),
        Some(Value::Float(Decimal { negative: false, mantissa: 7, scale: 0 }))
    );
    assert_eq!(
        coerce_value(DataType::Boolean, &Value::Text(" True ".to_string())),
        Some(Value::Boolean(true))
    );
    assert_eq!(
        coerce_value(DataType::Boolean, &Value::Text("0".to_string())),
        Some(Value::Boolean(false))
    );
    assert_eq!(
        coerce_value(DataType::Text, &Value::Integer(-3)),
        Some(Value::Text("-3".to_string()))
    );
    assert_eq!(
        coerce_value(
            DataType::Integer,
            &Value::Float(Decimal { negative: true, mantissa: 4, scale: 0 })
        ),
        Some(Value::Integer(-4))
    );
    assert_eq!(
        coerce_value(
            DataType::Integer,
            &Value::Float(Decimal { negative: false, mantissa: 45, scale: 1 })
        ),
        None
    );
    assert_eq!(coerce_value(DataType::Integer, &Value::Boolean(true)), Some(Value::Integer(1)));
    assert_eq!(coerce_value(DataType::Integer, &Value::Null), Some(Value::Null));
    assert_eq!(coerce_value(DataType::Boolean, &Value::Integer(7)), None);
}

#[test]
fn test_parse_show_tables() {
    let stmt = nexum_core::Parser::parse_management_statement("SHOW TABLES").unwrap().unwrap();
    match stmt {
        Statement::ShowTables => {},
        _ => panic!("expected a show-tables statement"),
    }
}

#[test]
fn test_parse_describe_table() {
    let stmt = nexum_core::Parser::parse_management_statement("DESCRIBE users")
        .unwrap()
        .unwrap();
    match stmt {
        Statement::DescribeTable { name } => assert_eq!(name, "users"),
        _ => panic!("expected a describe statement"),
    }
}

#[test]
fn test_parse_drop_table_if_exists() {
    let stmt = nexum_core::Parser::parse_management_statement("DROP TABLE IF EXISTS users")
        .unwrap()
        .unwrap();
    match stmt {
        Statement::DropTable { name, if_exists } => {
            assert_eq!(name, "users");
            assert!(if_exists);
        },
        _ => panic!("expected a drop statement"),
    }
}

#[test]
fn test_parse_drop_table_plain_and_quoted() {
    let stmt = nexum_core::Parser::parse_management_statement("drop table `users`")
        .unwrap()
        .unwrap();
    match stmt {
        Statement::DropTable { name, if_exists } => {
            assert_eq!(name, "users");
            assert!(!if_exists);
        },
        _ => panic!("expected a drop statement"),
    }
    assert!(nexum_core::Parser::parse_management_statement("SELECT * FROM t")
        .unwrap()
        .is_none());
}

#[test]
fn test_clean_identifier() {
    assert_eq!(nexum_core::Parser::clean_identifier("`users`"), "users");
    assert_eq!(nexum_core::Parser::clean_identifier("\"users\""), "users");
    assert_eq!(nexum_core::Parser::clean_identifier("'users'"), "users");
    assert_eq!(nexum_core::Parser::clean_identifier("users"), "users");
    assert_eq!(nexum_core::Parser::clean_identifier("`users"), "`users");
    // whitespace is trimmed before unquoting
    assert_eq!(nexum_core::Parser::clean_identifier(" x"), "x");
    assert_eq!(nexum_core::Parser::clean_identifier("  `users`  "), "users");
    assert_eq!(nexum_core::Parser::clean_identifier("\t'users'\n"), "users");
}

#[test]
fn test_planner_summaries() {
    let plan = Planner::plan(Statement::CreateTable {
        name: "t".to_string(),
        columns: vec![Column {
            name: "id".to_string(),
            data_type: DataType::Integer,
        }],
    });
    match plan {
        Plan::CreateTable { name, columns } => {
            assert_eq!(name, "t");
            assert_eq!(columns, vec![("id".to_string(), "Integer".to_string())]);
        },
        _ => panic!("expected a create plan"),
    }

    let plan = Planner::plan(Statement::Insert {
        table: "t".to_string(),
        columns: None,
        values: vec![vec![Value::Integer(1)], vec![Value::Integer(2)]],
    });
    match plan {
        Plan::Insert { table, rows } => {
            assert_eq!(table, "t");
            assert_eq!(rows, 2);
        },
        _ => panic!("expected an insert plan"),
    }

    let plan = Planner::plan(Statement::Select {
        table: "t".to_string(),
        projection: vec![SelectItem::Wildcard],
        where_clause: None,
        order_by: None,
        limit: None,
    });
    match plan {
        Plan::Select { table, columns } => {
            assert_eq!(table, "t");
            assert_eq!(columns, vec!["*".to_string()]);
        },
        _ => panic!("expected a select plan"),
    }

    let plan = Planner::plan(Statement::Delete {
        table: "t".to_string(),
        where_clause: Some(Expr::Column("flag".to_string())),
    });
    match plan {
        Plan::Delete { table, has_where } => {
            assert_eq!(table, "t");
            assert!(has_where);
        },
        _ => panic!("expected a delete plan"),
    }
}
