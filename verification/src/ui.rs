//! Display labels for the interactive picker, and the selector state that
//! maps a chosen label back to a profile name.
//!
//! The interactive widget itself is a collaborator outside this library:
//! it is handed one label per profile and returns the chosen label. This
//! module computes those labels and resolves the returned label to the
//! first profile that produces it.

use vstd::prelude::*;
use crate::config::Profile;
use crate::model::{views_of, ProfileData};
use crate::text::str_eq;

verus! {

/// The display label of a profile: its name, then `(account-id)`,
/// `[region]` and `{role-name}`, space-separated, each segment present
/// only when its attribute is.
pub open spec fn display_label(p: ProfileData) -> Seq<char> {
    p.name + (if p.attributes.contains_key("sso_account_id"@) {
        " ("@ + p.attributes["sso_account_id"@] + ")"@
    } else {
        Seq::<char>::empty()
    }) + (if p.attributes.contains_key("region"@) {
        " ["@ + p.attributes["region"@] + "]"@
    } else {
        Seq::<char>::empty()
    }) + (if p.attributes.contains_key("sso_role_name"@) {
        " {"@ + p.attributes["sso_role_name"@] + "}"@
    } else {
        Seq::<char>::empty()
    })
}

/// Builds the display label of a profile.
pub fn format_profile_display(profile: &Profile) -> (r: String)
    ensures
        r@ == display_label(profile@),
{
    let mut label = profile.name.clone();
    match profile.get_account_id() {
        Option::Some(id) => {
            label.append(" (");
            label.append(id);
            label.append(")");
        },
        Option::None => {},
    }
    match profile.get_region() {
        Option::Some(region) => {
            label.append(" [");
            label.append(region);
            label.append("]");
        },
        Option::None => {},
    }
    match profile.get_role_name() {
        Option::Some(role) => {
            label.append(" {");
            label.append(role);
            label.append("}");
        },
        Option::None => {},
    }
    proof {
        assert(label@ =~= display_label(profile@));
    }
    label
}

/// The name of the first profile whose display label equals `l`, if any.
pub open spec fn first_label_match(ps: Seq<ProfileData>, l: Seq<char>) -> Option<Seq<char>>
    decreases ps.len(),
{
    if ps.len() == 0 {
        None
    } else if display_label(ps.first()) == l {
        Some(ps.first().name)
    } else {
        first_label_match(ps.drop_first(), l)
    }
}

/// Holds the profiles offered to the interactive picker.
pub struct ProfileSelector {
    profiles: Vec<Profile>,
}

impl ProfileSelector {
    /// The abstract values of the held profiles, in order.
    pub closed spec fn profiles_view(&self) -> Seq<ProfileData> {
        views_of(self.profiles@)
    }

    /// Wraps a profile collection for selection.
    pub fn new(profiles: Vec<Profile>) -> (r: Self)
        ensures
            r.profiles_view() == views_of(profiles@),
    {
        ProfileSelector { profiles }
    }

    /// Returns whether there is nothing to select from.
    pub fn is_empty(&self) -> (r: bool)
        ensures
            r == (self.profiles_view().len() == 0),
    {
        self.profiles.is_empty()
    }

    /// The labels to present, one per profile, in order.
    pub fn display_options(&self) -> (r: Vec<String>)
        ensures
            r@.len() == self.profiles_view().len(),
            forall|i: int|
                0 <= i < r@.len() ==> (#[trigger] r@[i])@ == display_label(
                    self.profiles_view()[i],
                ),
    {
        let n = self.profiles.len();
        let mut options: Vec<String> = Vec::new();
        let mut i: usize = 0;
        while i < n
            invariant
                0 <= i <= n,
                n == self.profiles@.len(),
                options@.len() == i,
                forall|j: int|
                    0 <= j < i ==> (#[trigger] options@[j])@ == display_label(
                        views_of(self.profiles@)[j],
                    ),
            decreases n - i,
        {
            let label = format_profile_display(&self.profiles[i]);
            options.push(label);
            i = i + 1;
        }
        options
    }

    /// The name of the first profile whose label equals the returned text,
    /// or nothing when no profile produces that label.
    pub fn resolve_label(&self, selected: &str) -> (r: Option<String>)
        ensures
            match r {
                Some(name) => first_label_match(self.profiles_view(), selected@) == Some(name@),
                None => first_label_match(self.profiles_view(), selected@) is None,
            },
    {
        let n = self.profiles.len();
        let mut i: usize = 0;
        proof {
            assert(views_of(self.profiles@).skip(0) =~= views_of(self.profiles@));
        }
        while i < n
            invariant
                0 <= i <= n,
                n == self.profiles@.len(),
                first_label_match(views_of(self.profiles@), selected@) == first_label_match(
                    views_of(self.profiles@).skip(i as int),
                    selected@,
                ),
            decreases n - i,
        {
            proof {
                let v = views_of(self.profiles@);
                assert(v.skip(i as int).first() == v[i as int]);
                assert(v.skip(i as int).drop_first() =~= v.skip(i + 1));
            }
            let label = format_profile_display(&self.profiles[i]);
            if str_eq(label.as_str(), selected) {
                return Some(self.profiles[i].name.clone());
            }
            i = i + 1;
        }
        None
    }
}

} // verus!
