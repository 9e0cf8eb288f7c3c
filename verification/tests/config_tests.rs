use litelearn::config::{create_database_sql, validate_config, DbConfig};

fn good() -> DbConfig {
    DbConfig {
        host: "127.0.0.1".to_string(),
        port: 3306,
        user: "root".to_string(),
        password: "secret".to_string(),
        database: "litelearn".to_string(),
    }
}

#[test]
fn default_config() {
    let c = DbConfig::default();
    assert_eq!(c.host, "127.0.0.1");
    assert_eq!(c.port, 3306);
    assert_eq!(c.user, "root");
    assert_eq!(c.password, "");
    assert_eq!(c.database, "litelearn");
    assert_eq!(validate_config(&c), Ok(()));
}

#[test]
fn validation_reports_each_problem() {
    assert_eq!(validate_config(&good()), Ok(()));
    let mut c = good();
    c.host = "  ".to_string();
    assert_eq!(validate_config(&c), Err("数据库地址不能为空".to_string()));
    let mut c = good();
    c.port = 0;
    assert_eq!(validate_config(&c), Err("端口号无效".to_string()));
    let mut c = good();
    c.user = String::new();
    assert_eq!(validate_config(&c), Err("用户名不能为空".to_string()));
    let mut c = good();
    c.database = " \t".to_string();
    assert_eq!(validate_config(&c), Err("数据库名不能为空".to_string()));
    for bad in ["lite`learn", "a;b", "a\"b", "a'b"] {
        let mut c = good();
        c.database = bad.to_string();
        assert_eq!(validate_config(&c), Err("数据库名包含非法字符".to_string()));
    }
}

#[test]
fn validation_order_reports_first_problem() {
    let mut c = good();
    c.host = String::new();
    c.port = 0;
    assert_eq!(validate_config(&c), Err("数据库地址不能为空".to_string()));
}

#[test]
fn environment_overrides() {
    let mut c = good();
    c.apply_env(Some("db.example".to_string()), Some("3307".to_string()), Some(String::new()), Some(String::new()), None);
    assert_eq!(c.host, "db.example");
    assert_eq!(c.port, 3307);
    assert_eq!(c.user, "root");
    assert_eq!(c.password, "");
    assert_eq!(c.database, "litelearn");
}

#[test]
fn environment_ignores_bad_port_and_empty_names() {
    let mut c = good();
    c.apply_env(Some(String::new()), Some("70000".to_string()), None, None, Some(String::new()));
    assert_eq!(c.host, "127.0.0.1");
    assert_eq!(c.port, 3306);
    assert_eq!(c.password, "secret");
    assert_eq!(c.database, "litelearn");
    c.apply_env(None, Some("abc".to_string()), Some("admin".to_string()), Some("pw".to_string()), Some("other".to_string()));
    assert_eq!(c.port, 3306);
    assert_eq!(c.user, "admin");
    assert_eq!(c.password, "pw");
    assert_eq!(c.database, "other");
}

#[test]
fn create_database_statement() {
    assert_eq!(
        create_database_sql("litelearn"),
        "CREATE DATABASE IF NOT EXISTS `litelearn` DEFAULT CHARACTER SET utf8mb4 DEFAULT COLLATE utf8mb4_unicode_ci"
    );
}

#[test]
fn valid_database_name_stays_quoted() {
    let mut c = good();
    c.database = "  my_db  ".to_string();
    assert_eq!(validate_config(&c), Ok(()));
    let sql = create_database_sql(&c.database);
    assert_eq!(sql.matches('`').count(), 2);
    assert!(sql.starts_with("CREATE DATABASE IF NOT EXISTS `  my_db  `"));
}
