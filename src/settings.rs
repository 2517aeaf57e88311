//! The editor settings: where the documents live and which directories a scan skips.
use vstd::prelude::*;
use crate::codec::segs_view;
use crate::model::copy_strings;

verus! {

/// Where the documents live, and the directory names that a scan does not enter.
pub struct Settings {
    pub doc_root_path: String,
    pub ignore_dirs: Vec<String>,
}

/// A partial change of the settings: each field that is given replaces the current one.
pub struct SettingsPatch {
    pub doc_root_path: Option<String>,
    pub ignore_dirs: Option<Vec<String>>,
}

impl Settings {
    /// The settings a fresh installation starts with: no root, and `imgs`, `node_modules` and
    /// `dist` skipped.
    pub fn initial() -> (r: Settings)
        ensures
            r.doc_root_path@.len() == 0,
            segs_view(r.ignore_dirs@) == seq![
                "imgs"@,
                "node_modules"@,
                "dist"@,
            ],
    {
        let mut ignore_dirs: Vec<String> = Vec::new();
        ignore_dirs.push("imgs".to_owned());
        ignore_dirs.push("node_modules".to_owned());
        ignore_dirs.push("dist".to_owned());
        let r = Settings { doc_root_path: String::new(), ignore_dirs };
        assert(segs_view(r.ignore_dirs@) =~= seq!["imgs"@, "node_modules"@, "dist"@]);
        r
    }

    /// A copy of the settings.
    pub fn duplicate(&self) -> (r: Settings)
        ensures
            r.doc_root_path@ == self.doc_root_path@,
            segs_view(r.ignore_dirs@) == segs_view(self.ignore_dirs@),
    {
        Settings { doc_root_path: self.doc_root_path.clone(), ignore_dirs: copy_strings(&self.ignore_dirs) }
    }

    /// Applies a partial change.
    pub fn apply(&mut self, patch: SettingsPatch)
        ensures
            final(self).doc_root_path@ == match patch.doc_root_path {
                Some(p) => p@,
                None => old(self).doc_root_path@,
            },
            segs_view(final(self).ignore_dirs@) == match patch.ignore_dirs {
                Some(d) => segs_view(d@),
                None => segs_view(old(self).ignore_dirs@),
            },
    {
        match patch.doc_root_path {
            Some(p) => {
                self.doc_root_path = p;
            },
            None => {},
        }
        match patch.ignore_dirs {
            Some(d) => {
                self.ignore_dirs = d;
            },
            None => {},
        }
    }
}

/// Holds the current settings and the file they are kept in.
pub struct SettingsService {
    pub settings: Settings,
    pub editor_settings_file: String,
}

impl SettingsService {
    /// A service over settings read from `editor_settings_file`.
    pub fn new(editor_settings_file: String, settings: Settings) -> (r: SettingsService)
        ensures
            r.editor_settings_file@ == editor_settings_file@,
            r.settings.doc_root_path@ == settings.doc_root_path@,
            segs_view(r.settings.ignore_dirs@) == segs_view(settings.ignore_dirs@),
    {
        SettingsService { settings, editor_settings_file }
    }

    /// A copy of the current settings.
    pub fn get_settings(&self) -> (r: Settings)
        ensures
            r.doc_root_path@ == self.settings.doc_root_path@,
            segs_view(r.ignore_dirs@) == segs_view(self.settings.ignore_dirs@),
    {
        self.settings.duplicate()
    }

    /// Applies a partial change, the root already resolved, and returns the new settings.
    pub fn update_settings(&mut self, patch: SettingsPatch) -> (r: Settings)
        ensures
            final(self).editor_settings_file@ == old(self).editor_settings_file@,
            final(self).settings.doc_root_path@ == match patch.doc_root_path {
                Some(p) => p@,
                None => old(self).settings.doc_root_path@,
            },
            segs_view(final(self).settings.ignore_dirs@) == match patch.ignore_dirs {
                Some(d) => segs_view(d@),
                None => segs_view(old(self).settings.ignore_dirs@),
            },
            r.doc_root_path@ == final(self).settings.doc_root_path@,
            segs_view(r.ignore_dirs@) == segs_view(final(self).settings.ignore_dirs@),
    {
        self.settings.apply(patch);
        self.settings.duplicate()
    }
}

} // verus!
