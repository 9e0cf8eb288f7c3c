//! Database connection settings: defaults, overrides from the environment,
//! validation, and the statement that creates the database.
use vstd::prelude::*;
use crate::text::{
    chars_of, has_char, is_blank, parse_u16, parse_unsigned, push_str, string_of, trim,
    trimmed_chars,
};

verus! {

/// Database connection settings.
#[derive(Clone, Debug)]
pub struct DbConfig {
    /// Server address.
    pub host: String,
    /// Server port.
    pub port: u16,
    /// User name.
    pub user: String,
    /// Password.
    pub password: String,
    /// Database name.
    pub database: String,
}

/// A `String` holding `s`.
pub fn text(s: &str) -> (r: String)
    ensures
        r@ == s@,
{
    s.to_owned()
}

impl Default for DbConfig {
    /// `127.0.0.1:3306`, user `root`, no password, database `litelearn`.
    fn default() -> (r: DbConfig)
        ensures
            r.host@ == "127.0.0.1"@,
            r.port == 3306,
            r.user@ == "root"@,
            r.password@ == ""@,
            r.database@ == "litelearn"@,
    {
        DbConfig {
            host: text("127.0.0.1"),
            port: 3306,
            user: text("root"),
            password: text(""),
            database: text("litelearn"),
        }
    }
}

/// A text setting after an override: a non-empty value replaces it.
pub open spec fn overridden(current: Seq<char>, value: Option<String>) -> Seq<char> {
    match value {
        Some(v) => if v@.len() > 0 {
            v@
        } else {
            current
        },
        None => current,
    }
}

/// The port after an override: a value that reads as a port number replaces
/// it.
pub open spec fn overridden_port(current: u16, value: Option<String>) -> u16 {
    match value {
        Some(v) => match parse_unsigned(v@, u16::MAX as nat) {
            Some(n) => n as u16,
            None => current,
        },
        None => current,
    }
}

fn override_text(current: &mut String, value: Option<String>)
    ensures
        final(current)@ == overridden(old(current)@, value),
{
    match value {
        Some(v) => {
            if !v.as_str().is_empty() {
                *current = v;
            }
        },
        None => {},
    }
}

impl DbConfig {
    /// Applies overrides taken from the environment (`LITELEARN_DB_HOST`,
    /// `LITELEARN_DB_PORT`, `LITELEARN_DB_USER`, `LITELEARN_DB_PASSWORD`,
    /// `LITELEARN_DB_NAME`; `None` where a variable is not set). Host, user
    /// and database change only for a non-empty value, the port only for a
    /// value that reads as a port number; the password takes any value.
    pub fn apply_env(
        &mut self,
        host: Option<String>,
        port: Option<String>,
        user: Option<String>,
        password: Option<String>,
        database: Option<String>,
    )
        ensures
            final(self).host@ == overridden(old(self).host@, host),
            final(self).port == overridden_port(old(self).port, port),
            final(self).user@ == overridden(old(self).user@, user),
            final(self).password@ == (match password {
                Some(p) => p@,
                None => old(self).password@,
            }),
            final(self).database@ == overridden(old(self).database@, database),
    {
        override_text(&mut self.host, host);
        match port {
            Some(v) => {
                let chars = chars_of(v.as_str());
                match parse_u16(&chars) {
                    Some(n) => {
                        self.port = n;
                    },
                    None => {},
                }
            },
            None => {},
        }
        override_text(&mut self.user, user);
        match password {
            Some(p) => {
                self.password = p;
            },
            None => {},
        }
        override_text(&mut self.database, database);
    }
}

/// What is wrong with a configuration, if anything, in the order checked:
/// blank host, port 0, blank user, blank database name, a database name
/// holding a backquote, semicolon or quote.
pub open spec fn config_problem(c: DbConfig) -> Option<Seq<char>> {
    let database = trim(c.database@);
    if trim(c.host@).len() == 0 {
        Some("数据库地址不能为空"@)
    } else if c.port == 0 {
        Some("端口号无效"@)
    } else if trim(c.user@).len() == 0 {
        Some("用户名不能为空"@)
    } else if database.len() == 0 {
        Some("数据库名不能为空"@)
    } else if database.contains('`') || database.contains(';') || database.contains('"')
        || database.contains('\'') {
        Some("数据库名包含非法字符"@)
    } else {
        None
    }
}

/// Checks a configuration before it is used: fails with the message of the
/// first problem found (see `config_problem`).
pub fn validate_config(config: &DbConfig) -> (r: Result<(), String>)
    ensures
        match r {
            Ok(()) => config_problem(*config) is None,
            Err(e) => config_problem(*config) == Some(e@),
        },
{
    let host = chars_of(config.host.as_str());
    if is_blank(&host) {
        return Err(text("数据库地址不能为空"));
    }
    if config.port == 0 {
        return Err(text("端口号无效"));
    }
    let user = chars_of(config.user.as_str());
    if is_blank(&user) {
        return Err(text("用户名不能为空"));
    }
    let database = trimmed_chars(config.database.as_str());
    if database.len() == 0 {
        return Err(text("数据库名不能为空"));
    }
    if has_char(&database, '`') || has_char(&database, ';') || has_char(&database, '"') || has_char(
        &database,
        '\'',
    ) {
        return Err(text("数据库名包含非法字符"));
    }
    Ok(())
}

/// The statement that creates the database `name` when it is missing.
pub open spec fn create_database_statement(name: Seq<char>) -> Seq<char> {
    "CREATE DATABASE IF NOT EXISTS `"@ + name
        + "` DEFAULT CHARACTER SET utf8mb4 DEFAULT COLLATE utf8mb4_unicode_ci"@
}

/// The statement that creates the configured database when it is missing,
/// with utf8mb4 as its character set.
pub fn create_database_sql(database: &str) -> (r: String)
    ensures
        r@ == create_database_statement(database@),
{
    let mut out: Vec<char> = Vec::new();
    push_str(&mut out, "CREATE DATABASE IF NOT EXISTS `");
    push_str(&mut out, database);
    push_str(&mut out, "` DEFAULT CHARACTER SET utf8mb4 DEFAULT COLLATE utf8mb4_unicode_ci");
    string_of(&out)
}

proof fn lemma_trim_keeps_chars(s: Seq<char>, c: char)
    requires
        !crate::text::is_white_space(c),
    ensures
        s.contains(c) ==> trim(s).contains(c),
    decreases s.len(),
{
    if s.contains(c) {
        let k = choose|k: int| 0 <= k < s.len() && s[k] == c;
        lemma_trim_start_keeps(s, c, k);
        let t = crate::text::trim_start(s);
        let k2 = choose|k2: int| 0 <= k2 < t.len() && t[k2] == c;
        lemma_trim_end_keeps(t, c, k2);
    }
}

proof fn lemma_trim_start_keeps(s: Seq<char>, c: char, k: int)
    requires
        !crate::text::is_white_space(c),
        0 <= k < s.len(),
        s[k] == c,
    ensures
        crate::text::trim_start(s).contains(c),
    decreases s.len(),
{
    if s.len() > 0 && crate::text::is_white_space(s[0]) {
        assert(k > 0);
        assert(s.drop_first()[k - 1] == c);
        lemma_trim_start_keeps(s.drop_first(), c, k - 1);
    } else {
        assert(crate::text::trim_start(s)[k] == c);
    }
}

proof fn lemma_trim_end_keeps(s: Seq<char>, c: char, k: int)
    requires
        !crate::text::is_white_space(c),
        0 <= k < s.len(),
        s[k] == c,
    ensures
        crate::text::trim_end(s).contains(c),
    decreases s.len(),
{
    if s.len() > 0 && crate::text::is_white_space(s.last()) {
        assert(k < s.len() - 1);
        assert(s.drop_last()[k] == c);
        lemma_trim_end_keeps(s.drop_last(), c, k);
    } else {
        assert(crate::text::trim_end(s)[k] == c);
    }
}

/// Law: a configuration that passes validation yields a create-database
/// statement in which the database name cannot close its quoting: the only
/// backquotes are the two around the name.
pub proof fn law_valid_name_stays_quoted(c: DbConfig)
    requires
        config_problem(c) is None,
    ensures
        ({
            let sql = create_database_statement(c.database@);
            let open = "CREATE DATABASE IF NOT EXISTS `"@.len() - 1;
            let close = open + c.database@.len() + 1;
            &&& sql[open] == '`'
            &&& sql[close] == '`'
            &&& forall|k: int| 0 <= k < sql.len() && sql[k] == '`' ==> k == open || k == close
        }),
{
    reveal_strlit("CREATE DATABASE IF NOT EXISTS `");
    reveal_strlit("` DEFAULT CHARACTER SET utf8mb4 DEFAULT COLLATE utf8mb4_unicode_ci");
    let name = c.database@;
    assert(!crate::text::is_white_space('`'));
    lemma_trim_keeps_chars(name, '`');
    assert(!name.contains('`'));
    let a = "CREATE DATABASE IF NOT EXISTS `"@;
    let b = "` DEFAULT CHARACTER SET utf8mb4 DEFAULT COLLATE utf8mb4_unicode_ci"@;
    let sql = create_database_statement(name);
    assert(sql == a + name + b);
    assert forall|k: int| 0 <= k < sql.len() && sql[k] == '`' implies k == a.len() - 1 || k
        == a.len() + name.len() by {
        if k < a.len() {
            assert(a[k] == sql[k]);
        } else if k < a.len() + name.len() {
            assert(name[k - a.len()] == sql[k]);
            assert(name.contains('`'));
        } else {
            assert(b[k - a.len() - name.len()] == sql[k]);
        }
    }
}

} // verus!
