//! Project configuration: which files to scan, where output goes, and
//! how classes are renamed.  Paths are byte strings with forward-slash
//! separators; reading them from disk or from a manifest is the caller's
//! business — validation and defaulting are decided here.
use vstd::prelude::*;

use crate::pattern::ClassNamePattern;
use crate::rewrite::views;

verus! {

/// `.module.css`
pub open spec fn module_css_ext() -> Seq<u8> {
    seq![46u8, 109u8, 111u8, 100u8, 117u8, 108u8, 101u8, 46u8, 99u8, 115u8, 115u8]
}

/// `.module.scss`
pub open spec fn module_scss_ext() -> Seq<u8> {
    seq![46u8, 109u8, 111u8, 100u8, 117u8, 108u8, 101u8, 46u8, 115u8, 99u8, 115u8, 115u8]
}

/// `./src/`
pub open spec fn src_folder() -> Seq<u8> {
    seq![46u8, 47u8, 115u8, 114u8, 99u8, 47u8]
}

fn module_css_ext_vec() -> (v: Vec<u8>)
    ensures
        v@ == module_css_ext(),
{
    let mut v: Vec<u8> = Vec::new();
    v.push(46);
    v.push(109);
    v.push(111);
    v.push(100);
    v.push(117);
    v.push(108);
    v.push(101);
    v.push(46);
    v.push(99);
    v.push(115);
    v.push(115);
    proof {
        assert(v@ =~= module_css_ext());
    }
    v
}

fn module_scss_ext_vec() -> (v: Vec<u8>)
    ensures
        v@ == module_scss_ext(),
{
    let mut v: Vec<u8> = Vec::new();
    v.push(46);
    v.push(109);
    v.push(111);
    v.push(100);
    v.push(117);
    v.push(108);
    v.push(101);
    v.push(46);
    v.push(115);
    v.push(99);
    v.push(115);
    v.push(115);
    proof {
        assert(v@ =~= module_scss_ext());
    }
    v
}

/// The default extension list: `.module.css` and `.module.scss`.
pub fn default_extensions() -> (r: Vec<Vec<u8>>)
    ensures
        views(r@) =~= seq![module_css_ext(), module_scss_ext()],
{
    let mut r: Vec<Vec<u8>> = Vec::new();
    r.push(module_css_ext_vec());
    r.push(module_scss_ext_vec());
    r
}

/// The default folder list: the crate's `./src/` directory.
pub fn default_folders() -> (r: Vec<Vec<u8>>)
    ensures
        views(r@) =~= seq![src_folder()],
{
    let mut f: Vec<u8> = Vec::new();
    f.push(46);
    f.push(47);
    f.push(115);
    f.push(114);
    f.push(99);
    f.push(47);
    proof {
        assert(f@ =~= src_folder());
    }
    let mut r: Vec<Vec<u8>> = Vec::new();
    r.push(f);
    r
}

/// The default digest length.
pub fn default_hash_len() -> (r: usize)
    ensures
        r == 7,
{
    7
}

/// The active project configuration.
#[derive(Clone, Debug, PartialEq)]
pub struct Config {
    pub output_file: Option<Vec<u8>>,
    pub output_dir: Option<Vec<u8>>,
    pub extensions: Vec<Vec<u8>>,
    pub folders: Vec<Vec<u8>>,
    pub scss_prelude: Option<Vec<u8>>,
    pub hash_len: usize,
    pub class_name_pattern: ClassNamePattern,
}

/// The default pattern `[name]-[hash]` as parts.
pub open spec fn is_default_pattern(p: ClassNamePattern) -> bool {
    &&& p.parts@.len() == 3
    &&& p.parts@[0] is Name
    &&& p.parts@[1] is Str
    &&& p.parts@[1]->Str_0@ == seq![crate::bytes::B_HYPHEN]
    &&& p.parts@[2] is Hash
}

/// The built-in configuration: no outputs configured, the default
/// extensions and folder, no prelude, digest length 7, and the default
/// rename pattern.
pub open spec fn is_default_config(c: Config) -> bool {
    &&& c.output_file is None
    &&& c.output_dir is None
    &&& views(c.extensions@) == seq![module_css_ext(), module_scss_ext()]
    &&& views(c.folders@) == seq![src_folder()]
    &&& c.scss_prelude is None
    &&& c.hash_len == 7
    &&& is_default_pattern(c.class_name_pattern)
}

impl Default for Config {
    fn default() -> (r: Self)
        ensures
            is_default_config(r),
    {
        Config {
            output_file: None,
            output_dir: None,
            extensions: default_extensions(),
            folders: default_folders(),
            scss_prelude: None,
            hash_len: default_hash_len(),
            class_name_pattern: ClassNamePattern::default(),
        }
    }
}

/// A flat configuration shape: any field left out falls back to its
/// default.
#[derive(Clone, Debug, PartialEq)]
pub struct ConfigToml {
    pub output: Option<Vec<u8>>,
    pub extensions: Option<Vec<Vec<u8>>>,
    pub folders: Option<Vec<Vec<u8>>>,
}

impl Config {
    /// Fill a configuration from the flat shape, defaulting every field
    /// it does not carry.
    pub fn from_toml(value: ConfigToml) -> (r: Config)
        ensures
            r.output_file == value.output,
            r.output_dir is None,
            value.extensions is Some ==> r.extensions == value.extensions->0,
            value.extensions is None ==> views(r.extensions@) == seq![
                module_css_ext(),
                module_scss_ext(),
            ],
            value.folders is Some ==> r.folders == value.folders->0,
            value.folders is None ==> views(r.folders@) == seq![src_folder()],
            r.scss_prelude is None,
            r.hash_len == 7,
            is_default_pattern(r.class_name_pattern),
    {
        let extensions = match value.extensions {
            Some(e) => e,
            None => default_extensions(),
        };
        let folders = match value.folders {
            Some(f) => f,
            None => default_folders(),
        };
        Config {
            output_file: value.output,
            output_dir: None,
            extensions,
            folders,
            scss_prelude: None,
            hash_len: default_hash_len(),
            class_name_pattern: ClassNamePattern::default(),
        }
    }
}

/// The manifest shape the configuration is found under:
/// `package.metadata.stylance`.
pub struct CargoToml {
    pub package: Option<CargoTomlPackage>,
}

pub struct CargoTomlPackage {
    pub metadata: Option<CargoTomlPackageMetadata>,
}

pub struct CargoTomlPackageMetadata {
    pub stylance: Option<Config>,
}

/// An invalid configuration value.
#[derive(Clone, Copy, Debug, PartialEq, Eq, Structural)]
pub enum ConfigError {
    /// An entry of the extension list is the empty string.
    EmptyExtension,
}

/// Every configured extension is a non-empty string.
pub open spec fn extensions_valid(c: Config) -> bool {
    forall|k: int| 0 <= k < c.extensions@.len() ==> (#[trigger] c.extensions@[k]@).len() > 0
}

/// Check a configuration for invalid values; empty extension strings are
/// rejected before any scanning begins.
pub fn validate_config(config: &Config) -> (r: Result<(), ConfigError>)
    ensures
        r is Ok <==> extensions_valid(*config),
        r is Err ==> r->Err_0 is EmptyExtension,
{
    let mut k: usize = 0;
    while k < config.extensions.len()
        invariant
            k <= config.extensions@.len(),
            forall|j: int| 0 <= j < k ==> (#[trigger] config.extensions@[j]@).len() > 0,
        decreases config.extensions@.len() - k,
    {
        if config.extensions[k].len() == 0 {
            return Err(ConfigError::EmptyExtension);
        }
        k = k + 1;
    }
    Ok(())
}

/// Take the configuration a manifest carries, or the default when it
/// carries none, and validate it: a configuration with an empty
/// extension string is rejected at load time.
pub fn resolve_config(cargo_toml: CargoToml) -> (r: Result<Config, ConfigError>)
    ensures
        r is Ok ==> extensions_valid(r->Ok_0),
        ({
            match cargo_toml.package {
                Some(p) => match p.metadata {
                    Some(m) => match m.stylance {
                        Some(c) => (r is Ok <==> extensions_valid(c)) && (r is Ok ==> r->Ok_0
                            == c),
                        None => r is Ok && is_default_config(r->Ok_0),
                    },
                    None => r is Ok && is_default_config(r->Ok_0),
                },
                None => r is Ok && is_default_config(r->Ok_0),
            }
        }),
{
    let config = match cargo_toml.package {
        Some(CargoTomlPackage { metadata: Some(CargoTomlPackageMetadata { stylance: Some(c) }) }) => c,
        _ => {
            let d = Config::default();
            proof {
                assert(extensions_valid(d)) by {
                    assert(views(d.extensions@).len() == 2);
                    assert(d.extensions@[0]@ == views(d.extensions@)[0]);
                    assert(d.extensions@[1]@ == views(d.extensions@)[1]);
                }
            }
            d
        },
    };
    match validate_config(&config) {
        Ok(()) => Ok(config),
        Err(e) => Err(e),
    }
}

} // verus!
