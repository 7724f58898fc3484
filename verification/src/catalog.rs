//! The tool catalog of the installer: products, their tools and the files a
//! tool is built from, and the choice of tools by number.

use vstd::prelude::*;
use vstd::string::StringExecFns;
use std::cmp::Ordering;
use crate::paths::{trim_text, trimmed};
use crate::text::{parse_number, parsed_number, pieces, split_on, texts};

verus! {

/// One source file of a tool: where it belongs in the project, what it is
/// called, and where it is fetched from.
#[derive(Debug)]
pub struct Asset {
    pub location: String,
    pub filename: String,
    pub url: String,
}

/// A tool that can be installed: its name, its latest version, its files.
#[derive(Debug)]
pub struct Tool {
    pub name: String,
    pub version: String,
    pub files: Vec<Asset>,
}

/// The catalog: when it was last updated, and the tools on offer.
#[derive(Debug)]
pub struct Product {
    pub last_update: String,
    pub tools: Vec<Tool>,
}

/// Whether `number`, counted from 1, names one of `count` tools.
pub open spec fn names_a_tool(number: int, count: int) -> bool {
    1 <= number <= count
}

/// The positions, counted from 0, of the tools that `selected` names by
/// their numbers, counted from 1: in catalog order, each once.
pub open spec fn chosen_positions(count: int, selected: Seq<usize>) -> Seq<int> {
    Seq::new(count as nat, |i: int| i).filter(|i: int| selected.contains((i + 1) as usize))
}

impl Product {
    /// The tools that the user chose by number, counted from 1, in catalog
    /// order, each once however often it was named. Numbers that name no tool
    /// choose nothing.
    pub fn filter_tools_by_user(&self, selected: &Vec<usize>) -> (chosen: Vec<&Tool>)
        ensures
            chosen@.len() == chosen_positions(self.tools@.len() as int, selected@).len(),
            forall|k: int|
                0 <= k < chosen@.len() ==> *(#[trigger] chosen@[k]) == self.tools@[chosen_positions(
                    self.tools@.len() as int,
                    selected@,
                )[k]],
    {
        let ghost count = self.tools@.len() as int;
        let ghost all = Seq::new(count as nat, |i: int| i);
        let ghost picks = |i: int| selected@.contains((i + 1) as usize);
        let mut chosen: Vec<&Tool> = Vec::new();
        let mut i: usize = 0;
        proof {
            reveal(Seq::filter);
            assert(all.take(0) =~= Seq::<int>::empty());
        }
        while i < self.tools.len()
            invariant
                i <= self.tools.len(),
                count == self.tools@.len(),
                all == Seq::new(count as nat, |i: int| i),
                picks == |i: int| selected@.contains((i + 1) as usize),
                chosen@.len() == all.take(i as int).filter(picks).len(),
                forall|k: int|
                    0 <= k < chosen@.len() ==> *(#[trigger] chosen@[k]) == self.tools@[all.take(
                        i as int,
                    ).filter(picks)[k]],
            decreases self.tools.len() - i,
        {
            let named = contains_number(selected, i + 1);
            proof {
                reveal(Seq::filter);
                assert(all.take(i + 1).drop_last() =~= all.take(i as int));
                assert(all.take(i + 1).last() == i as int);
            }
            if named {
                chosen.push(&self.tools[i]);
            }
            i += 1;
        }
        assert(all.take(count) =~= all);
        chosen
    }
}

/// Whether `number` is among `numbers`.
pub fn contains_number(numbers: &Vec<usize>, number: usize) -> (found: bool)
    ensures
        found == numbers@.contains(number),
{
    let mut i: usize = 0;
    while i < numbers.len()
        invariant
            i <= numbers.len(),
            forall|j: int| 0 <= j < i ==> numbers@[j] != number,
        decreases numbers.len() - i,
    {
        if numbers[i] == number {
            return true;
        }
        i += 1;
    }
    false
}

/// The number that a word of the user's answer stands for: the number it
/// writes, or, where it writes none, the largest number there is, which no
/// catalog reaches.
pub open spec fn answer_number(word: Seq<char>) -> usize {
    match parsed_number(word) {
        Some(n) => n,
        None => usize::MAX,
    }
}

/// The tool numbers in the user's answer: the answer without the whitespace
/// at its ends is cut at every blank, and the pieces that name one of
/// `tool_count` tools are kept, in order.
pub open spec fn tool_numbers(line: Seq<char>, tool_count: int) -> Seq<usize> {
    pieces(trimmed(line), ' ').map_values(|w: Seq<char>| answer_number(w)).filter(
        |n: usize| names_a_tool(n as int, tool_count),
    )
}

/// Reads the tool numbers in the user's answer. The result is empty where
/// the answer names no tool at all: the caller asks again.
pub fn parse_tool_selection(line: &str, tool_count: usize) -> (numbers: Vec<usize>)
    ensures
        numbers@ == tool_numbers(line@, tool_count as int),
{
    let words = split_on(trim_text(line), ' ');
    let ghost all = texts(words@).map_values(|w: Seq<char>| answer_number(w));
    let ghost named = |n: usize| names_a_tool(n as int, tool_count as int);
    let mut numbers: Vec<usize> = Vec::new();
    let mut i: usize = 0;
    proof {
        reveal(Seq::filter);
        assert(all.take(0) =~= Seq::<usize>::empty());
    }
    while i < words.len()
        invariant
            i <= words.len(),
            all == texts(words@).map_values(|w: Seq<char>| answer_number(w)),
            named == |n: usize| names_a_tool(n as int, tool_count as int),
            numbers@ == all.take(i as int).filter(named),
        decreases words.len() - i,
    {
        let number = match parse_number(words[i].as_str()) {
            Some(n) => n,
            None => usize::MAX,
        };
        proof {
            reveal(Seq::filter);
            assert(all.take(i + 1).drop_last() =~= all.take(i as int));
            assert(all.take(i + 1).last() == number);
        }
        if 1 <= number && number <= tool_count {
            numbers.push(number);
        }
        i += 1;
    }
    assert(all.take(words.len() as int) =~= all);
    numbers
}

/// How an installed version stands to the latest one.
#[derive(Clone, Copy, Debug, PartialEq, Eq)]
pub enum VersionOrder {
    /// The installed version comes before the latest.
    Older,
    /// The two are the same version.
    Same,
    /// The installed version comes after the latest.
    Newer,
}

/// The version that `text` writes under the rules of Semantic Versioning,
/// written out again as the `semver` crate displays it; `None` where `text`
/// writes no version.
pub uninterp spec fn semver_text(text: Seq<char>) -> Option<Seq<char>>;

/// How the version that `installed` writes stands to the one that `latest`
/// writes in the order of `semver::Version`; `None` where one of them writes
/// no version.
pub uninterp spec fn semver_order(installed: Seq<char>, latest: Seq<char>) -> Option<VersionOrder>;

/// Calls `semver::Version::parse` and writes the version out again through
/// its `Display`. The contract only gives the result its name,
/// [`semver_text`].
#[verifier::external_body]
pub(crate) fn version_text(text: &str) -> (written: Option<String>)
    ensures
        written.deep_view() == semver_text(text@),
{
    semver::Version::parse(text).ok().map(|v| v.to_string())
}

/// Parses both texts with `semver::Version::parse` and compares the versions
/// with `semver::Version`'s `Ord`. The contract gives the result its name,
/// [`semver_order`], and says that there is an order exactly where both texts
/// write a version.
#[verifier::external_body]
pub(crate) fn version_order(installed: &str, latest: &str) -> (order: Option<VersionOrder>)
    ensures
        order == semver_order(installed@, latest@),
        order is Some <==> (semver_text(installed@) is Some && semver_text(latest@) is Some),
{
    match (semver::Version::parse(installed), semver::Version::parse(latest)) {
        (Ok(a), Ok(b)) => Some(
            match a.cmp(&b) {
                Ordering::Less => VersionOrder::Older,
                Ordering::Equal => VersionOrder::Same,
                Ordering::Greater => VersionOrder::Newer,
            },
        ),
        _ => None,
    }
}

/// What asking a tool for its version gave: `None` where the tool could not
/// be run, else what it printed.
pub type Probe = Option<String>;

/// How an installed tool stands to the catalog.
#[derive(Clone, Copy, Debug, PartialEq, Eq)]
pub enum Standing {
    /// The tool could not be run.
    NotInstalled,
    /// The tool is there in the given order to the catalog's version.
    Installed(VersionOrder),
}

/// Whether there is something to install: the tool is not there, or it is
/// older than the latest version.
pub open spec fn update_needed(standing: Standing) -> bool {
    match standing {
        Standing::NotInstalled => true,
        Standing::Installed(order) => order is Older,
    }
}

/// Decides whether there is something to install.
pub fn needs_update(standing: Standing) -> (needed: bool)
    ensures
        needed == update_needed(standing),
{
    match standing {
        Standing::NotInstalled => true,
        Standing::Installed(VersionOrder::Older) => true,
        Standing::Installed(_) => false,
    }
}

/// The note behind a tool's name in the list: the update on offer, that the
/// latest version is installed, or nothing where the installed version is
/// ahead of the catalog.
pub open spec fn install_note(order: VersionOrder, installed: Seq<char>, latest: Seq<char>) -> Seq<
    char,
> {
    match order {
        VersionOrder::Older => "(update available: "@ + installed + "-->"@ + latest + ")"@,
        VersionOrder::Same => "(Latest installed "@ + latest + ")"@,
        VersionOrder::Newer => Seq::empty(),
    }
}

/// Writes the note behind a tool's name in the list.
pub fn describe_install(order: VersionOrder, installed: &str, latest: &str) -> (note: String)
    ensures
        note@ == install_note(order, installed@, latest@),
{
    match order {
        VersionOrder::Older => {
            let mut note = String::from_str("(update available: ");
            note.append(installed);
            note.append("-->");
            note.append(latest);
            note.append(")");
            note
        },
        VersionOrder::Same => {
            let mut note = String::from_str("(Latest installed ");
            note.append(latest);
            note.append(")");
            note
        },
        VersionOrder::Newer => String::new(),
    }
}

impl Tool {
    /// The probe can be read: the tool was not run, or what it printed,
    /// without the whitespace at its ends, and the catalog's version both
    /// write a version.
    pub open spec fn readable(&self, probe: Option<Seq<char>>) -> bool {
        match probe {
            None => true,
            Some(printed) => semver_text(trimmed(printed)) is Some && semver_text(self.version@)
                is Some,
        }
    }

    /// How the tool stands to the catalog, for a probe that can be read.
    pub open spec fn standing(&self, probe: Option<Seq<char>>) -> Standing {
        match probe {
            None => Standing::NotInstalled,
            Some(printed) => Standing::Installed(
                semver_order(trimmed(printed), self.version@).unwrap(),
            ),
        }
    }

    /// What the list says behind the tool's name, for a probe that can be
    /// read: nothing for a tool that could not be run, else the note for how
    /// its version stands to the catalog's, both written as `semver` writes
    /// them.
    pub open spec fn description(&self, probe: Option<Seq<char>>) -> Seq<char> {
        match probe {
            None => Seq::empty(),
            Some(printed) => install_note(
                semver_order(trimmed(printed), self.version@).unwrap(),
                semver_text(trimmed(printed)).unwrap(),
                semver_text(self.version@).unwrap(),
            ),
        }
    }

    /// Whether the tool is installed: it could be run when it was asked for
    /// its version.
    pub fn is_installed(&self, probe: &Probe) -> (installed: bool)
        ensures
            installed == probe is Some,
    {
        probe.is_some()
    }

    /// How the tool stands to the catalog, or `None` where the probe cannot
    /// be read.
    pub fn check(&self, probe: &Probe) -> (standing: Option<Standing>)
        ensures
            standing is Some <==> self.readable(probe.deep_view()),
            standing matches Some(s) ==> s == self.standing(probe.deep_view()),
    {
        match probe {
            None => Some(Standing::NotInstalled),
            Some(printed) => {
                let installed = trim_text(printed.as_str());
                let latest = self.version.as_str();
                if version_text(installed).is_none() || version_text(latest).is_none() {
                    None
                } else {
                    Some(Standing::Installed(version_order(installed, latest).unwrap()))
                }
            },
        }
    }

    /// Whether there is something to install: the tool could not be run, or
    /// the version it printed is older than the catalog's.
    pub fn is_update_available(&self, probe: &Probe) -> (available: bool)
        requires
            self.readable(probe.deep_view()),
        ensures
            available == update_needed(self.standing(probe.deep_view())),
    {
        match self.check(probe) {
            Some(standing) => needs_update(standing),
            None => true,
        }
    }

    /// What the list says behind the tool's name.
    pub fn install_description(&self, probe: &Probe) -> (note: String)
        requires
            self.readable(probe.deep_view()),
        ensures
            note@ == self.description(probe.deep_view()),
    {
        match probe {
            None => String::new(),
            Some(printed) => {
                let installed = trim_text(printed.as_str());
                let order = version_order(installed, self.version.as_str());
                let installed_text = version_text(installed);
                let latest_text = version_text(self.version.as_str());
                describe_install(
                    order.unwrap(),
                    installed_text.unwrap().as_str(),
                    latest_text.unwrap().as_str(),
                )
            },
        }
    }

    /// Whether there is something to install, or `None` where the probe
    /// cannot be read.
    pub fn check_update(&self, probe: &Probe) -> (available: Option<bool>)
        ensures
            available is Some <==> self.readable(probe.deep_view()),
            available matches Some(a) ==> a == update_needed(self.standing(probe.deep_view())),
    {
        match self.check(probe) {
            Some(_) => Some(self.is_update_available(probe)),
            None => None,
        }
    }

    /// What the list says behind the tool's name, or `None` where the probe
    /// cannot be read.
    pub fn check_description(&self, probe: &Probe) -> (note: Option<String>)
        ensures
            note is Some <==> self.readable(probe.deep_view()),
            note matches Some(n) ==> n@ == self.description(probe.deep_view()),
    {
        match self.check(probe) {
            Some(_) => Some(self.install_description(probe)),
            None => None,
        }
    }
}

} // verus!
