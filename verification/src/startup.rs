//! What happens when the program starts: whether data of an older installation
//! is carried over, and which site is active.

use vstd::prelude::*;
use crate::db::settings::setting;
use crate::db::{Db, SettingRow};

verus! {

/// Whether an older database is copied.
pub open spec fn copied(database_exists: bool, legacy_database_exists: Option<bool>) -> bool {
    !database_exists && legacy_database_exists == Some(true)
}

/// Whether the older database is to be copied: only where there is none yet, so
/// that data in use is never overwritten, and where there is one to copy. The
/// second argument is `None` where there is no place to look for it.
pub fn carries_over(database_exists: bool, legacy_database_exists: Option<bool>) -> (r: bool)
    ensures
        r == copied(database_exists, legacy_database_exists),
{
    if database_exists {
        return false;
    }
    match legacy_database_exists {
        Some(b) => b,
        None => false,
    }
}

/// The site that is active where none was chosen.
pub open spec fn default_site() -> Seq<char> {
    "animeytx"@
}

/// The site that was chosen, or the default one.
pub open spec fn chosen_site(settings: Seq<SettingRow>) -> Seq<char> {
    match setting(settings, "active_site_id"@) {
        Some(s) => s@,
        None => default_site(),
    }
}

impl Db {
    /// The active site: the one that was chosen, or the default one.
    pub fn active_site(&self) -> (r: String)
        ensures
            r@ == chosen_site(self.settings@),
    {
        match self.get_setting("active_site_id") {
            Ok(Some(s)) => s,
            _ => "animeytx".to_owned(),
        }
    }
}

} // verus!
