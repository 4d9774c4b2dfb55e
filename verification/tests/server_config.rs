use nebula::network_manager::{chunk_len, frame_header, frame_size};
use nebula::server_config::{connection_string, local_connection_string, username_argument, ConfigError};

fn args(items: &[&str]) -> Vec<String> {
    items.iter().map(|s| s.to_string()).collect()
}

#[test]
fn connection_string_needs_three_arguments() {
    assert_eq!(connection_string(&args(&["server"]), "db"), Err(ConfigError::MissingUsername));
    assert_eq!(connection_string(&args(&["server", "u"]), "db"), Err(ConfigError::MissingPassword));
    assert_eq!(connection_string(&args(&["server", "u", "p"]), "db"), Err(ConfigError::MissingHost));
    assert_eq!(
        connection_string(&args(&["server", "u", "p", "h", "extra"]), "db"),
        Ok("host=h user=u password=p dbname = db".to_owned())
    );
}

#[test]
fn config_error_messages() {
    assert_eq!(ConfigError::MissingUsername.message(), "postgres username argument was not specified");
    assert_eq!(ConfigError::MissingPassword.message(), "postgres password argument was not specified");
    assert_eq!(ConfigError::MissingHost.message(), "postgres host argument was not specified");
}

#[test]
fn local_connection_and_username() {
    assert_eq!(local_connection_string("postgres"), "host=localhost user=postgres dbname = mydb");
    assert_eq!(username_argument(&args(&["server"])), Err(ConfigError::MissingUsername));
    assert_eq!(username_argument(&args(&["server", "me"])), Ok(&"me".to_owned()));
}

#[test]
fn framing_helpers() {
    assert_eq!(frame_header(5), 5u64.to_be_bytes().to_vec());
    assert_eq!(frame_size([0, 0, 2, 0]), 512);
    assert_eq!(chunk_len(1000, 0), 512);
    assert_eq!(chunk_len(1000, 600), 400);
    assert_eq!(chunk_len(1, 0), 1);
}
