use vstd::prelude::*;
use std::collections::HashMap;
use crate::order::{clone_strings, str_eq};

verus! {

/// The named suffix groups of the configuration file: each group name maps
/// to the list of suffixes it covers.  Built once at startup from the
/// configuration text and passed by shared reference.
pub struct GroupTable {
    entries: Vec<(String, Vec<String>)>,
}

/// Relies on serde_yaml::from_str: parses a YAML document whose `groups`
/// mapping goes from group name to a list of suffix strings.  A mapping's
/// keys are unique, so the entries come out with pairwise distinct names.
#[verifier::external_body]
fn parse_groups_yaml(text: &str) -> (r: Option<Vec<(String, Vec<String>)>>)
    ensures
        match r {
            Some(v) => forall|i: int, j: int|
                0 <= i < j < v.deep_view().len() ==> (#[trigger] v.deep_view()[i]).0 != (
                #[trigger] v.deep_view()[j]).0,
            None => true,
        },
{
    let parsed: Result<HashMap<String, HashMap<String, Vec<String>>>, _> = serde_yaml::from_str(
        text,
    );
    match parsed {
        Ok(mut doc) => doc.remove("groups").map(|groups| groups.into_iter().collect()),
        Err(_) => None,
    }
}

impl GroupTable {
    /// The table's entries, as views, one per group.
    pub closed spec fn entries_view(&self) -> Seq<(Seq<char>, Seq<Seq<char>>)> {
        self.entries.deep_view()
    }

    /// Group names are pairwise distinct.
    pub open spec fn wf(&self) -> bool {
        forall|i: int, j: int|
            0 <= i < j < self.entries_view().len() ==> (#[trigger] self.entries_view()[i]).0 != (
            #[trigger] self.entries_view()[j]).0
    }

    /// Builds the table from the text of the groups configuration file;
    /// `None` when the text is not a YAML document with a `groups` mapping.
    pub fn from_yaml(text: &str) -> (r: Option<GroupTable>)
        ensures
            match r {
                Some(t) => t.wf(),
                None => true,
            },
    {
        match parse_groups_yaml(text) {
            Some(entries) => Some(GroupTable { entries }),
            None => None,
        }
    }

    pub fn len(&self) -> (n: usize)
        ensures
            n == self.entries_view().len(),
    {
        self.entries.len()
    }
}

/// The suffixes of the named group, or `None` when the table has no group
/// of that name.
pub fn get_suffix_group(table: &GroupTable, group_name: &str) -> (r: Option<Vec<String>>)
    ensures
        match r {
            Some(v) => exists|i: int|
                0 <= i < table.entries_view().len() && #[trigger] table.entries_view()[i] == (
                    group_name@,
                    v.deep_view(),
                ),
            None => forall|i: int|
                0 <= i < table.entries_view().len() ==> (#[trigger] table.entries_view()[i]).0
                    != group_name@,
        },
{
    let n = table.entries.len();
    let mut i: usize = 0;
    while i < n
        invariant
            n == table.entries_view().len(),
            n == table.entries@.len(),
            0 <= i <= n,
            forall|j: int|
                0 <= j < i ==> (#[trigger] table.entries_view()[j]).0 != group_name@,
        decreases n - i,
    {
        if str_eq(table.entries[i].0.as_str(), group_name) {
            let v = clone_strings(&table.entries[i].1);
            proof {
                assert(table.entries_view()[i as int] == (group_name@, v.deep_view()));
            }
            return Some(v);
        }
        i += 1;
    }
    None
}

/// The names of every group the table holds, in table order.
pub fn list_available_groups(table: &GroupTable) -> (r: Vec<String>)
    ensures
        r.deep_view().len() == table.entries_view().len(),
        forall|i: int|
            0 <= i < table.entries_view().len() ==> #[trigger] r.deep_view()[i] == (
            table.entries_view()[i]).0,
{
    let n = table.entries.len();
    let mut r: Vec<String> = Vec::new();
    let mut i: usize = 0;
    while i < n
        invariant
            n == table.entries_view().len(),
            n == table.entries@.len(),
            0 <= i <= n,
            r.deep_view().len() == i,
            forall|j: int|
                0 <= j < i ==> #[trigger] r.deep_view()[j] == (table.entries_view()[j]).0,
        decreases n - i,
    {
        let name = table.entries[i].0.clone();
        let ghost r0 = r;
        r.push(name);
        proof {
            assert forall|j: int| 0 <= j < i + 1 implies #[trigger] r.deep_view()[j] == (
            table.entries_view()[j]).0 by {
                assert(r.deep_view()[j] == r@[j].deep_view());
                if j < i {
                    assert(r@[j] == r0@[j]);
                    assert(r0.deep_view()[j] == r0@[j].deep_view());
                }
            }
        }
        i += 1;
    }
    r
}

} // verus!
