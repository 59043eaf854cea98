//! Configuration: what a run is told besides its plan.

use crate::path::{join, FilePath};
use figment::Figment;
use vstd::prelude::*;
use vstd::utf8::{encode_utf8, is_ascii_chars_encode_utf8};

verus! {

/// The options of a run.
#[derive(Debug)]
pub struct GlobalConfig {
    /// The `ninja` command to execute in `run` mode.
    pub ninja: String,
    /// Never delete the temporary directory used to execute ninja in `run` mode.
    pub keep_build_dir: bool,
}

impl Default for GlobalConfig {
    fn default() -> (config: Self)
        ensures
            config.ninja@ == "ninja"@,
            !config.keep_build_dir,
    {
        GlobalConfig { ninja: "ninja".to_string(), keep_build_dir: false }
    }
}

/// All configuration values, and the options among them.
pub struct Config {
    pub data: Figment,
    pub global: GlobalConfig,
}

/// Where the configuration file stands: in the directory for configuration files, or
/// else in `.config` below the home directory. There is none where neither is known.
pub open spec fn config_path(
    config_home: Option<Seq<char>>,
    home: Option<Seq<char>>,
) -> Option<Seq<u8>> {
    match (config_home, home) {
        (Some(dir), _) => Some(join(encode_utf8(dir), encode_utf8("fake.toml"@))),
        (None, Some(dir)) => Some(
            join(encode_utf8(dir) + encode_utf8("/.config"@), encode_utf8("fake.toml"@)),
        ),
        (None, None) => None,
    }
}

/// A string, if there is one, as its characters.
pub open spec fn text_of(text: Option<String>) -> Option<Seq<char>> {
    match text {
        Some(s) => Some(s@),
        None => None,
    }
}

/// The path of the configuration file, from what `XDG_CONFIG_HOME` and `HOME` hold.
pub fn find_config_file(config_home: Option<String>, home: Option<String>) -> (path: Option<
    FilePath,
>)
    ensures
        match path {
            Some(p) => config_path(text_of(config_home), text_of(home)) == Some(p@),
            None => config_path(text_of(config_home), text_of(home)) is None,
        },
{
    let base = match config_home {
        Some(dir) => FilePath::from_str(dir.as_str()),
        None => match home {
            Some(dir) => {
                let mut base = FilePath::from_str(dir.as_str());
                base.bytes.extend_from_slice("/.config".as_bytes());
                assert(base@ =~= encode_utf8(dir@) + encode_utf8("/.config"@));
                base
            },
            None => return None,
        },
    };
    Some(base.join("fake.toml"))
}

/// Unless told otherwise, a run executes `ninja` and removes its build directory.
pub proof fn law_default_options(config: GlobalConfig)
    requires
        call_ensures(GlobalConfig::default, (), config),
    ensures
        config.ninja@ == "ninja"@,
        config.keep_build_dir == false,
{
}

/// The configuration file is `fake.toml`. It stands directly in the directory for
/// configuration files where that is known, whatever the home directory is, and else in
/// `.config` directly in the home directory. There is none exactly if neither is known.
pub proof fn law_config_file(
    config_home: Option<String>,
    home: Option<String>,
    path: Option<FilePath>,
)
    requires
        call_ensures(find_config_file, (config_home, home), path),
    ensures
        path is None <==> config_home is None && home is None,
        config_home matches Some(dir) ==> path->0.bytes@ == encode_utf8(dir@) + (if encode_utf8(
            dir@,
        ).len() == 0 || encode_utf8(dir@).last() == 0x2f {
            Seq::empty()
        } else {
            seq![0x2fu8]
        }) + encode_utf8("fake.toml"@),
        config_home is None ==> (home matches Some(dir) ==> path->0.bytes@ == encode_utf8(dir@)
            + encode_utf8("/.config"@) + seq![0x2fu8] + encode_utf8("fake.toml"@)),
{
    reveal_strlit("fake.toml");
    reveal_strlit("/.config");
    is_ascii_chars_encode_utf8("fake.toml"@);
    is_ascii_chars_encode_utf8("/.config"@);
    assert("fake.toml"@[0] == 'f');
    assert("/.config"@[7] == 'g');
    if let Some(dir) = config_home {
        assert(encode_utf8(dir@) + Seq::<u8>::empty() =~= encode_utf8(dir@));
    } else if let Some(dir) = home {
        let base = encode_utf8(dir@) + encode_utf8("/.config"@);
        assert(base.last() == encode_utf8("/.config"@)[7]);
    }
}

} // verus!
