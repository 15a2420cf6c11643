//! Server configuration.
//!
//! A flat record of the four options the server honours. Reading them from
//! the environment is the embedder's concern; the library owns the defaults
//! and the derived strings.

use vstd::prelude::*;

verus! {

/// A configuration failure, fatal at startup.
#[derive(Debug)]
pub enum ConfigError {
    /// The port option is not a number in range.
    InvalidPort,
}

/// The server's options.
pub struct Config {
    /// TCP port of the HTTP listener.
    pub port: u16,
    /// Root directory for per-tenant database files.
    pub database_dir: String,
    /// Deadline, in seconds, for the first credential frame.
    pub auth_timeout_secs: u64,
    /// Per-tenant connection pool cap.
    pub max_pool_size: u32,
}

/// The decimal digit characters of a non-negative number, most significant
/// first.
pub open spec fn dec_digits(n: int) -> Seq<char>
    decreases n,
{
    if n < 10 {
        seq![digit_char(n)]
    } else {
        dec_digits(n / 10).push(digit_char(n % 10))
    }
}

/// The character of one decimal digit.
pub open spec fn digit_char(d: int) -> char {
    if d == 0 {
        '0'
    } else if d == 1 {
        '1'
    } else if d == 2 {
        '2'
    } else if d == 3 {
        '3'
    } else if d == 4 {
        '4'
    } else if d == 5 {
        '5'
    } else if d == 6 {
        '6'
    } else if d == 7 {
        '7'
    } else if d == 8 {
        '8'
    } else {
        '9'
    }
}

/// Appends one decimal digit character.
fn push_digit(s: &mut String, d: u16)
    requires
        d < 10,
    ensures
        final(s)@ == old(s)@ + seq![digit_char(d as int)],
{
    if d == 0 {
        proof {
            reveal_strlit("0");
        }
        s.append("0");
    } else if d == 1 {
        proof {
            reveal_strlit("1");
        }
        s.append("1");
    } else if d == 2 {
        proof {
            reveal_strlit("2");
        }
        s.append("2");
    } else if d == 3 {
        proof {
            reveal_strlit("3");
        }
        s.append("3");
    } else if d == 4 {
        proof {
            reveal_strlit("4");
        }
        s.append("4");
    } else if d == 5 {
        proof {
            reveal_strlit("5");
        }
        s.append("5");
    } else if d == 6 {
        proof {
            reveal_strlit("6");
        }
        s.append("6");
    } else if d == 7 {
        proof {
            reveal_strlit("7");
        }
        s.append("7");
    } else if d == 8 {
        proof {
            reveal_strlit("8");
        }
        s.append("8");
    } else {
        proof {
            reveal_strlit("9");
        }
        s.append("9");
    }
    proof {
        assert(final(s)@ =~= old(s)@ + seq![digit_char(d as int)]);
    }
}

/// Appends the decimal digits of a number.
fn append_decimal(s: &mut String, n: u16)
    ensures
        final(s)@ == old(s)@ + dec_digits(n as int),
    decreases n,
{
    if n < 10 {
        push_digit(s, n);
    } else {
        append_decimal(s, n / 10);
        push_digit(s, n % 10);
        proof {
            assert(final(s)@ =~= old(s)@ + dec_digits(n as int));
        }
    }
}

impl Config {
    /// The listen address: every interface, at the configured port.
    pub fn server_addr(&self) -> (r: String)
        ensures
            r@ == "0.0.0.0:"@ + dec_digits(self.port as int),
    {
        let mut s = String::from_str("0.0.0.0:");
        append_decimal(&mut s, self.port);
        s
    }

    /// The database file of one tenant, under the configured root.
    pub fn get_db_path(&self, tenant: &str) -> (r: String)
        ensures
            r@ == self.database_dir@ + "/"@ + tenant@ + ".db"@,
    {
        let mut s = self.database_dir.clone();
        s.append("/");
        s.append(tenant);
        s.append(".db");
        proof {
            assert(s@ =~= self.database_dir@ + "/"@ + tenant@ + ".db"@);
        }
        s
    }
}

impl Default for Config {
    /// The documented defaults: port 8080, directory `databases`, a ten
    /// second credential deadline, twenty pooled connections per tenant.
    fn default() -> (r: Config)
        ensures
            r.port == 8080,
            r.database_dir@ == "databases"@,
            r.auth_timeout_secs == 10,
            r.max_pool_size == 20,
    {
        Config {
            port: 8080,
            database_dir: String::from_str("databases"),
            auth_timeout_secs: 10,
            max_pool_size: 20,
        }
    }
}

} // verus!
