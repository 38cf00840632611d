//! Persisted picker UI state: loaded once at startup, written back after each
//! request is resolved. The on-disk codec and the file I/O live outside the
//! library; here the state is plain data and the load fallback rule is exact.

use vstd::prelude::*;
use vstd::string::StringExecFns;

verus! {

/// The picker UI state that survives across requests and process lifetimes:
/// folder history and view options, as plain values.
pub struct DialogStorage {
    /// Folders the user has pinned in the picker, as absolute paths.
    pub pinned_folders: Vec<String>,
    /// Whether hidden files are shown.
    pub show_hidden: bool,
}

/// The whole persisted configuration record.
pub struct Config {
    pub file_dia_storage: DialogStorage,
}

/// The mathematical value of a [`DialogStorage`].
pub ghost struct DialogStorageV {
    pub pinned_folders: Seq<Seq<char>>,
    pub show_hidden: bool,
}

impl View for DialogStorage {
    type V = DialogStorageV;

    open spec fn view(&self) -> DialogStorageV {
        DialogStorageV {
            pinned_folders: self.pinned_folders@.map_values(|s: String| s@),
            show_hidden: self.show_hidden,
        }
    }
}

impl View for Config {
    type V = DialogStorageV;

    open spec fn view(&self) -> DialogStorageV {
        self.file_dia_storage@
    }
}

/// The state a fresh installation starts from: no history, hidden files off.
pub open spec fn default_storage() -> DialogStorageV {
    DialogStorageV { pinned_folders: Seq::empty(), show_hidden: false }
}

impl DialogStorage {
    /// A copy whose value is the same.
    pub fn snapshot(&self) -> (c: DialogStorage)
        ensures
            c@ == self@,
    {
        let mut pinned: Vec<String> = Vec::new();
        let mut i: usize = 0;
        while i < self.pinned_folders.len()
            invariant
                i <= self.pinned_folders@.len(),
                pinned@.len() == i,
                forall|j: int| 0 <= j < i ==> pinned@[j]@ == self.pinned_folders@[j]@,
            decreases self.pinned_folders@.len() - i,
        {
            let s = self.pinned_folders[i].clone();
            pinned.push(s);
            i += 1;
        }
        let c = DialogStorage { pinned_folders: pinned, show_hidden: self.show_hidden };
        proof {
            assert(c@.pinned_folders =~= self@.pinned_folders);
        }
        c
    }
}

impl Config {
    /// A copy whose value is the same.
    pub fn snapshot(&self) -> (c: Config)
        ensures
            c@ == self@,
    {
        Config { file_dia_storage: self.file_dia_storage.snapshot() }
    }

    /// The fallback rule for startup: a state that parsed is taken as it is,
    /// any read or parse failure falls back to the default state.
    pub fn load_or_default(parsed: Option<Config>) -> (cfg: Config)
        ensures
            parsed matches Some(c) ==> cfg@ == c@,
            parsed is None ==> cfg@ == default_storage(),
    {
        match parsed {
            Some(c) => c,
            None => {
                let cfg = Config {
                    file_dia_storage: DialogStorage {
                        pinned_folders: Vec::new(),
                        show_hidden: false,
                    },
                };
                proof {
                    assert(cfg@.pinned_folders =~= Seq::<Seq<char>>::empty());
                }
                cfg
            },
        }
    }
}

/// Relies on `dirs::config_dir`: the platform's configuration directory, if
/// the running environment defines one. Nothing can be promised of the value.
#[verifier::external_body]
fn platform_config_dir() -> (r: Option<String>)
{
    dirs::config_dir().map(|p| p.to_string_lossy().into_owned())
}

/// The directory this service keeps its configuration under: the platform
/// configuration directory with the service's own subdirectory appended.
pub fn cfg_dir() -> (r: Option<String>)
    ensures
        r matches Some(d) ==> exists|base: Seq<char>|
            d@ == base + "/xdg-desktop-portal-froggy"@,
{
    match platform_config_dir() {
        Some(base) => {
            let d = base.concat("/xdg-desktop-portal-froggy");
            Some(d)
        },
        None => None,
    }
}

/// The configuration file itself, inside [`cfg_dir`].
pub fn cfg_file() -> (r: Option<String>)
    ensures
        r matches Some(f) ==> exists|base: Seq<char>|
            f@ == base + "/xdg-desktop-portal-froggy/config.ron"@,
{
    match cfg_dir() {
        Some(d) => {
            let f = d.concat("/config.ron");
            proof {
                let base = choose|base: Seq<char>| d@ == base + "/xdg-desktop-portal-froggy"@;
                reveal_strlit("/xdg-desktop-portal-froggy");
                reveal_strlit("/config.ron");
                reveal_strlit("/xdg-desktop-portal-froggy/config.ron");
                assert(f@ =~= base + "/xdg-desktop-portal-froggy/config.ron"@);
            }
            Some(f)
        },
        None => None,
    }
}

} // verus!
