//! What can go wrong with a plugin.
use vstd::prelude::*;
use vstd::string::*;

use crate::text::join;
use crate::text::join3;

verus! {

#[derive(Debug, PartialEq, Eq)]
pub enum PackError {
    /// Nothing was named.
    Unnamed,
    /// What was named is not a plugin.
    NotAPlugin(String),
    /// What was named has no name at its end.
    Nameless(String),
    /// An argument of `add` is missing.
    AddWhat,
    /// An argument of `remove` is missing.
    RemoveWhat,
    UnknownCommand(String),
    AlreadyInstalled(String),
    NotInstalled(String),
    /// The manifest in `file` calls the plugin `manifest`, but it installs as
    /// `name`.
    OtherName { file: String, manifest: String, name: String },
    /// The plugin needs an interface that is not offered.
    WrongApi { name: String, needs: String, offers: String },
    /// Git failed on `arguments`, and said `reason`.
    Git { arguments: String, reason: String },
    /// There is no home to install under.
    NoHome,
    /// The editor has no place for plugins.
    NoSite,
}

/// What is said of an error.
pub open spec fn error_text(e: PackError) -> Seq<char> {
    match e {
        PackError::Unnamed => "name a plugin to install, as 'user/repo' or a git URL"@,
        PackError::NotAPlugin(s) => "'"@ + s@
            + "' is not a plugin; write 'user/repo' or a git URL"@,
        PackError::Nameless(s) => "'"@ + s@ + "' has no plugin name at the end of it"@,
        PackError::AddWhat => "add needs a plugin, as 'user/repo' or a git URL"@,
        PackError::RemoveWhat => "remove needs the name of an installed plugin"@,
        PackError::UnknownCommand(s) => "'"@ + s@
            + "' is not a davimci-pack command; try --help"@,
        PackError::AlreadyInstalled(s) => s@
            + " is already installed; update or remove it first"@,
        PackError::NotInstalled(s) => "'"@ + s@ + "' is not installed"@,
        PackError::OtherName { file, manifest, name } => file@ + " calls this plugin '"@ + manifest@
            + "' but it installs as '"@ + name@ + "'"@,
        PackError::WrongApi { name, needs, offers } => name@ + " needs davimci api "@ + needs@
            + " and this build offers "@ + offers@,
        PackError::Git { arguments, reason } => "git "@ + arguments@ + ": "@ + reason@,
        PackError::NoHome => "no HOME, so there is no config directory to install into"@,
        PackError::NoSite => "no site directory to install into"@,
    }
}

impl PackError {
    pub fn message(&self) -> (s: String)
        ensures
            s@ == error_text(*self),
    {
        match self {
            PackError::Unnamed =>
                "name a plugin to install, as 'user/repo' or a git URL".to_owned(),
            PackError::NotAPlugin(s) => join3(
                "'",
                s.as_str(),
                "' is not a plugin; write 'user/repo' or a git URL",
            ),
            PackError::Nameless(s) => join3(
                "'",
                s.as_str(),
                "' has no plugin name at the end of it",
            ),
            PackError::AddWhat => "add needs a plugin, as 'user/repo' or a git URL".to_owned(),
            PackError::RemoveWhat => "remove needs the name of an installed plugin".to_owned(),
            PackError::UnknownCommand(s) => join3(
                "'",
                s.as_str(),
                "' is not a davimci-pack command; try --help",
            ),
            PackError::AlreadyInstalled(s) => join(
                s.as_str(),
                " is already installed; update or remove it first",
            ),
            PackError::NotInstalled(s) => join3("'", s.as_str(), "' is not installed"),
            PackError::OtherName { file, manifest, name } => {
                let mut s = join3(file.as_str(), " calls this plugin '", manifest.as_str());
                s.append("' but it installs as '");
                s.append(name.as_str());
                s.append("'");
                s
            },
            PackError::WrongApi { name, needs, offers } => {
                let mut s = join3(name.as_str(), " needs davimci api ", needs.as_str());
                s.append(" and this build offers ");
                s.append(offers.as_str());
                s
            },
            PackError::Git { arguments, reason } => {
                let mut s = join3("git ", arguments.as_str(), ": ");
                s.append(reason.as_str());
                s
            },
            PackError::NoHome => {
                "no HOME, so there is no config directory to install into".to_owned()
            },
            PackError::NoSite => "no site directory to install into".to_owned(),
        }
    }
}

/// Whether a plugin may be installed: its manifest must call it by the name
/// that it installs as, and need no interface that is not offered.
pub fn check_manifest(
    file: &str,
    manifest: &str,
    name: &str,
    needs: &str,
    offers: &str,
    accepted: bool,
) -> (r: Result<(), PackError>)
    ensures
        match r {
            Ok(_) => manifest@ == name@ && accepted,
            Err(PackError::OtherName { file: f, manifest: m, name: n }) => manifest@ != name@
                && f@ == file@ && m@ == manifest@ && n@ == name@,
            Err(PackError::WrongApi { name: n, needs: w, offers: o }) => manifest@ == name@
                && !accepted && n@ == name@ && w@ == needs@ && o@ == offers@,
            Err(_) => false,
        },
{
    if !crate::text::same_text(manifest, name) {
        return Err(
            PackError::OtherName {
                file: file.to_owned(),
                manifest: manifest.to_owned(),
                name: name.to_owned(),
            },
        );
    }
    if !accepted {
        return Err(
            PackError::WrongApi {
                name: name.to_owned(),
                needs: needs.to_owned(),
                offers: offers.to_owned(),
            },
        );
    }
    Ok(())
}

} // verus!
