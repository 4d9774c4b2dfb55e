//! How the server finds its database: the connection settings from its
//! command-line arguments.

use vstd::prelude::*;
use vstd::string::*;

verus! {

/// A command-line argument that the server needs is missing.
#[derive(Debug, Clone, Copy, PartialEq, Eq)]
pub enum ConfigError {
    MissingUsername,
    MissingPassword,
    MissingHost,
}

impl ConfigError {
    /// What the server reports for the error.
    pub fn message(&self) -> (res: &'static str)
        ensures
            *self == ConfigError::MissingUsername ==> res@ == "postgres username argument was not specified"@,
            *self == ConfigError::MissingPassword ==> res@ == "postgres password argument was not specified"@,
            *self == ConfigError::MissingHost ==> res@ == "postgres host argument was not specified"@,
    {
        match self {
            ConfigError::MissingUsername => "postgres username argument was not specified",
            ConfigError::MissingPassword => "postgres password argument was not specified",
            ConfigError::MissingHost => "postgres host argument was not specified",
        }
    }
}

/// The connection settings for database `db_name` from the program's
/// arguments: the user name, password and host come from the first, second
/// and third argument after the program's name.
pub fn connection_string(args: &Vec<String>, db_name: &str) -> (res: Result<String, ConfigError>)
    ensures
        args.len() < 2 ==> res == Err::<String, ConfigError>(ConfigError::MissingUsername),
        args.len() == 2 ==> res == Err::<String, ConfigError>(ConfigError::MissingPassword),
        args.len() == 3 ==> res == Err::<String, ConfigError>(ConfigError::MissingHost),
        args.len() > 3 ==> (res matches Ok(s) && s@ == "host="@ + args@[3]@ + " user="@ + args@[1]@
            + " password="@ + args@[2]@ + " dbname = "@ + db_name@),
{
    if args.len() < 2 {
        return Err(ConfigError::MissingUsername);
    }
    if args.len() < 3 {
        return Err(ConfigError::MissingPassword);
    }
    if args.len() < 4 {
        return Err(ConfigError::MissingHost);
    }
    let mut s = String::new();
    s.append("host=");
    s.append(args[3].as_str());
    s.append(" user=");
    s.append(args[1].as_str());
    s.append(" password=");
    s.append(args[2].as_str());
    s.append(" dbname = ");
    s.append(db_name);
    Ok(s)
}

/// The connection settings for the local database `mydb` as `username`.
pub fn local_connection_string(username: &str) -> (res: String)
    ensures
        res@ == "host=localhost user="@ + username@ + " dbname = mydb"@,
{
    let mut s = String::new();
    s.append("host=localhost user=");
    s.append(username);
    s.append(" dbname = mydb");
    s
}

/// The server's own user name argument: the first argument after the
/// program's name.
pub fn username_argument(args: &Vec<String>) -> (res: Result<&String, ConfigError>)
    ensures
        args.len() < 2 ==> res == Err::<&String, ConfigError>(ConfigError::MissingUsername),
        args.len() >= 2 ==> res == Ok::<&String, ConfigError>(&args@[1]),
{
    if args.len() < 2 {
        Err(ConfigError::MissingUsername)
    } else {
        Ok(&args[1])
    }
}
} // verus!
