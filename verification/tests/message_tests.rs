use hawk_core::baseline::BaselineError;
use hawk_core::cache::CacheError;
use hawk_core::config::ConfigError;
use hawk_core::discovery::DiscoveryError;
use hawk_core::git::GitError;
use hawk_core::language::Language;
use hawk_core::pack::PackError;
use hawk_core::scan::ScanError;
use hawk_core::scope::ScopeError;
use hawk_core::syntax::ParseError;

#[test]
fn error_messages_name_the_failing_item() {
    assert_eq!(
        PackError::DuplicateId { id: "r".into(), first: "a.toml".into(), second: "b.toml".into() }.to_string(),
        "rule id 'r' defined by both 'a.toml' and 'b.toml'"
    );
    assert_eq!(PackError::Validate { message: "m".into() }.to_string(), "invalid pack: m");
    assert_eq!(
        PackError::Read { path: "p".into(), source: "gone".into() }.to_string(),
        "unable to read pack 'p': gone"
    );
    assert_eq!(
        BaselineError::Write { path: ".hawk/baseline.json".into(), source: "denied".into() }.to_string(),
        "unable to write baseline '.hawk/baseline.json': denied"
    );
    assert_eq!(
        ConfigError::Parse { path: "hawk.toml".into(), source: "bad".into() }.to_string(),
        "unable to parse config 'hawk.toml': bad"
    );
    assert_eq!(ConfigError::NoHome.to_string(), "unable to locate the home directory");
    assert_eq!(ConfigError::Validate { message: "x".into() }.to_string(), "invalid config: x");
    assert_eq!(GitError::NonZero("fatal".into()).to_string(), "git failed: fatal");
    assert_eq!(GitError::Unavailable("no git".into()).to_string(), "git unavailable: no git");
    assert_eq!(
        DiscoveryError::ReadMetadata { path: "a".into(), source: "e".into() }.to_string(),
        "unable to read metadata for 'a': e"
    );
    assert_eq!(CacheError { message: "full".into() }.to_string(), "full");
    assert_eq!(ScanError::Scope(ScopeError::PathNotFound("x".into())).to_string(), "path not found: x");
    assert_eq!(
        ScanError::Scope(ScopeError::MetadataUnavailable { path: "y".into() }).to_string(),
        "unable to determine path type: y"
    );
    assert_eq!(
        ScanError::Parse { path: "A.java".into(), source: ParseError::UnsupportedLanguage(Language::Unknown) }
            .to_string(),
        "unable to parse 'A.java': unsupported language: Unknown"
    );
    assert_eq!(
        ScanError::Pack(PackError::Validate { message: "m".into() }).to_string(),
        "rule pack error: invalid pack: m"
    );
    assert_eq!(
        ScanError::Discovery(DiscoveryError::ReadDirectory { path: "d".into(), source: "e".into() }).to_string(),
        "unable to read directory 'd': e"
    );
}
