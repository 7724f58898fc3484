//! Reading paths: the parts of a path as the platform's path syntax defines
//! them, and the clean-up of a path that a user typed or pasted.

use vstd::prelude::*;
use vstd::string::StringExecFns;
use crate::host::home_directory;
use crate::text::{chars_of, eq_ignore_ascii_case, same_ignoring_ascii_case, string_of};

verus! {

/// The extension of a path, as `std::path::Path::extension` reads it off the
/// path's text under the path syntax of the platform the crate is built for.
pub uninterp spec fn path_extension(path: Seq<char>) -> Option<Seq<char>>;

/// The final component of a path, as `std::path::Path::file_name` reads it
/// off the path's text under the path syntax of the platform the crate is
/// built for.
pub uninterp spec fn path_file_name(path: Seq<char>) -> Option<Seq<char>>;

/// The final component of a path without its extension, as
/// `std::path::Path::file_stem` reads it off the path's text under the path
/// syntax of the platform the crate is built for.
pub uninterp spec fn path_file_stem(path: Seq<char>) -> Option<Seq<char>>;

/// Calls `std::path::Path::extension` on the path with this text. The
/// contract only gives the result its name, [`path_extension`]: the call
/// reads nothing but the text. The extension of a path made from a string is
/// itself valid UTF-8, so turning it back into a string changes nothing.
#[verifier::external_body]
pub(crate) fn extension_of(path: &str) -> (ext: Option<String>)
    ensures
        ext.deep_view() == path_extension(path@),
{
    std::path::Path::new(path).extension().map(|e| e.to_string_lossy().into_owned())
}

/// Calls `std::path::Path::file_name` on the path with this text. The
/// contract only gives the result its name, [`path_file_name`]: the call
/// reads nothing but the text.
#[verifier::external_body]
pub(crate) fn file_name_of(path: &str) -> (name: Option<String>)
    ensures
        name.deep_view() == path_file_name(path@),
{
    std::path::Path::new(path).file_name().map(|n| n.to_string_lossy().into_owned())
}

/// Calls `std::path::Path::file_stem` on the path with this text. The
/// contract only gives the result its name, [`path_file_stem`]: the call
/// reads nothing but the text.
#[verifier::external_body]
pub(crate) fn file_stem_of(path: &str) -> (stem: Option<String>)
    ensures
        stem.deep_view() == path_file_stem(path@),
{
    std::path::Path::new(path).file_stem().map(|s| s.to_string_lossy().into_owned())
}

/// Whether an extension, if there is one, is `wanted` up to the case of ASCII
/// letters.
pub open spec fn extension_matches(found: Option<Seq<char>>, wanted: Seq<char>) -> bool {
    match found {
        Some(ext) => same_ignoring_ascii_case(ext, wanted),
        None => false,
    }
}

/// Whether the path has the extension `wanted`, ASCII letters compared
/// without regard to case. A path without an extension has none, not an
/// empty one.
pub open spec fn has_extension(path: Seq<char>, wanted: Seq<char>) -> bool {
    extension_matches(path_extension(path), wanted)
}

/// Decides whether an extension read off a path is the wanted one.
pub fn matches_extension(found: &Option<String>, wanted: &str) -> (same: bool)
    ensures
        same == extension_matches(found.deep_view(), wanted@),
{
    match found {
        Some(ext) => eq_ignore_ascii_case(ext.as_str(), wanted),
        None => false,
    }
}

/// Whether the path has the extension `wanted`, ASCII letters compared
/// without regard to case.
pub fn path_has_extension(path: &str, wanted: &str) -> (same: bool)
    ensures
        same == has_extension(path@, wanted@),
{
    let found = extension_of(path);
    matches_extension(&found, wanted)
}

/// `text` without the whitespace at its two ends, as `str::trim` returns it:
/// whitespace is what Unicode marks as White_Space.
pub uninterp spec fn trimmed(text: Seq<char>) -> Seq<char>;

/// Calls `str::trim`. The contract only gives the result its name,
/// [`trimmed`].
#[verifier::external_body]
pub(crate) fn trim_text(text: &str) -> (inner: &str)
    ensures
        inner@ == trimmed(text@),
{
    text.trim()
}

/// The character that takes the next character literally.
pub const ESCAPE: char = '\\';

/// `text` with each backslash removed and the character behind it kept as it
/// is, a backslash too. A backslash at the very end has nothing to protect
/// and stays.
pub open spec fn unescaped(text: Seq<char>) -> Seq<char>
    decreases text.len(),
{
    if text.len() == 0 {
        text
    } else if text[0] != ESCAPE {
        seq![text[0]] + unescaped(text.skip(1))
    } else if text.len() == 1 {
        text
    } else {
        seq![text[1]] + unescaped(text.skip(2))
    }
}

/// Removes shell escapes from a pasted path: each backslash goes and the
/// character behind it stays. A backslash at the very end stays.
pub fn unescape_backslashes(input: &str) -> (out: String)
    ensures
        out@ == unescaped(input@),
{
    let chars = chars_of(input);
    let mut out = String::new();
    let mut i: usize = 0;
    assert(input@.skip(0) =~= input@);
    while i < chars.len()
        invariant
            i <= chars.len(),
            chars@ == input@,
            unescaped(input@) == out@ + unescaped(input@.skip(i as int)),
        decreases chars.len() - i,
    {
        let ghost rest = input@.skip(i as int);
        let ghost before = out@;
        let c = chars[i];
        if c != ESCAPE {
            out.push(c);
            i += 1;
            proof {
                assert(rest.skip(1) =~= input@.skip(i as int));
                assert(before + (seq![c] + unescaped(rest.skip(1))) =~= out@ + unescaped(
                    rest.skip(1),
                ));
            }
        } else if i + 1 < chars.len() {
            let next = chars[i + 1];
            out.push(next);
            i += 2;
            proof {
                assert(rest[1] == next);
                assert(rest.skip(2) =~= input@.skip(i as int));
                assert(before + (seq![next] + unescaped(rest.skip(2))) =~= out@ + unescaped(
                    rest.skip(2),
                ));
            }
        } else {
            out.push(c);
            i += 1;
            proof {
                assert(rest =~= seq![c]);
                assert(input@.skip(i as int) =~= Seq::<char>::empty());
                assert(before + rest =~= out@ + Seq::<char>::empty());
            }
        }
    }
    assert(input@.skip(chars.len() as int) =~= Seq::<char>::empty());
    assert(out@ + Seq::<char>::empty() =~= out@);
    out
}

/// Whether the path starts in the user's home: with a tilde and a slash.
pub open spec fn starts_at_home(path: Seq<char>) -> bool {
    path.len() >= 2 && path[0] == '~' && path[1] == '/'
}

/// The path with a leading tilde replaced by the home directory, where the
/// path starts at home and the home directory is known; else the path as it
/// is.
pub open spec fn tilde_expanded(path: Seq<char>, home: Option<Seq<char>>) -> Seq<char> {
    match home {
        Some(h) => if starts_at_home(path) {
            h + path.skip(1)
        } else {
            path
        },
        None => path,
    }
}

/// Whether the path starts in the user's home: with a tilde and a slash.
pub fn path_starts_at_home(path: &str) -> (at_home: bool)
    ensures
        at_home == starts_at_home(path@),
{
    let chars = chars_of(path);
    chars.len() >= 2 && chars[0] == '~' && chars[1] == '/'
}

/// Replaces the tilde of a path that starts at home by `home`, if that is
/// known.
pub fn expand_tilde_with(path: &str, home: &Option<String>) -> (out: String)
    ensures
        out@ == tilde_expanded(path@, home.deep_view()),
{
    match home {
        Some(h) => {
            if path_starts_at_home(path) {
                let chars = chars_of(path);
                let rest = string_of(&chars, 1, chars.len());
                let mut out = h.clone();
                out.append(rest.as_str());
                assert(chars@.subrange(1, chars@.len() as int) =~= path@.skip(1));
                out
            } else {
                String::from_str(path)
            }
        },
        None => String::from_str(path),
    }
}

/// Replaces the tilde of a path that starts at home by the user's home
/// directory, as the machine gives it. Any other path is returned as it is,
/// and so is every path where no home directory is to be found.
pub fn expand_tilde(path: &str) -> (out: String)
    ensures
        !starts_at_home(path@) ==> out@ == path@,
        exists|home: Option<Seq<char>>| out@ == tilde_expanded(path@, home),
{
    if path_starts_at_home(path) {
        let home = home_directory();
        let out = expand_tilde_with(path, &home);
        assert(out@ == tilde_expanded(path@, home.deep_view()));
        out
    } else {
        let out = String::from_str(path);
        assert(out@ == tilde_expanded(path@, None));
        out
    }
}

/// Where backups go when the user names no folder.
pub const DEFAULT_OUTPUT_FOLDER: &'static str = "./auto-backup";

/// The output folder for what the user typed and a home directory: the
/// default for a blank line, else the line without the whitespace at its
/// ends, unescaped, its tilde expanded.
pub open spec fn output_folder_for(line: Seq<char>, home: Option<Seq<char>>) -> Seq<char> {
    if trimmed(line).len() == 0 {
        DEFAULT_OUTPUT_FOLDER@
    } else {
        tilde_expanded(unescaped(trimmed(line)), home)
    }
}

/// Turns the line that the user typed into the output folder: the default
/// for a blank line, else the line without the whitespace at its ends,
/// unescaped, its tilde expanded by the user's home directory.
pub fn get_output_folder(line: &str) -> (folder: String)
    ensures
        exists|home: Option<Seq<char>>| folder@ == output_folder_for(line@, home),
        trimmed(line@).len() == 0 ==> folder@ == DEFAULT_OUTPUT_FOLDER@,
        trimmed(line@).len() > 0 && !starts_at_home(unescaped(trimmed(line@))) ==> folder@
            == unescaped(trimmed(line@)),
{
    let inner = trim_text(line);
    if inner.is_empty() {
        let folder = String::from_str(DEFAULT_OUTPUT_FOLDER);
        assert(folder@ == output_folder_for(line@, None));
        folder
    } else {
        let plain = unescape_backslashes(inner);
        let folder = expand_tilde(plain.as_str());
        proof {
            let home = choose|home: Option<Seq<char>>| folder@ == tilde_expanded(plain@, home);
            assert(folder@ == output_folder_for(line@, home));
        }
        folder
    }
}

} // verus!
