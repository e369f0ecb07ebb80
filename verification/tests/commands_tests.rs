//! Command surface tests.

use tmkms::commands::InitCommand;
use tmkms::commands::LedgerCommand;

#[test]
fn config_path_reflects_the_option() {
    let with_path = LedgerCommand::Initialise(InitCommand {
        config: Some(String::from("/etc/kms.toml")),
        height: Some(1),
        round: Some(0),
        step: Some(3),
    });
    assert_eq!(with_path.config_path(), Some("/etc/kms.toml"));

    let without = LedgerCommand::Initialise(InitCommand {
        config: None,
        height: None,
        round: None,
        step: None,
    });
    assert_eq!(without.config_path(), None);
}
