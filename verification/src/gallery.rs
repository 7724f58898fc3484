//! Candidate file names for a gallery pick list: every picked name, stripped
//! of its own extension, combined with every wanted extension.

use vstd::prelude::*;
use vstd::string::StringExecFns;
use crate::paths::{file_stem_of, path_file_stem, trim_text, trimmed};
use crate::text::{lemma_texts_push, pieces, same_text, split_on, texts};

verus! {

/// `stem`, a dot, and `extension`.
pub open spec fn stem_with(stem: Seq<char>, extension: Seq<char>) -> Seq<char> {
    stem + seq!['.'] + extension
}

/// `stem` combined with each of `extensions`, in their order.
pub open spec fn stem_with_each(stem: Seq<char>, extensions: Seq<Seq<char>>) -> Seq<Seq<char>> {
    extensions.map_values(|x: Seq<char>| stem_with(stem, x))
}

/// What one picked name contributes: nothing if it is empty, else its stem
/// combined with each extension.
pub open spec fn names_from(filename: Seq<char>, extensions: Seq<Seq<char>>) -> Seq<Seq<char>> {
    if filename.len() == 0 {
        Seq::empty()
    } else {
        match path_file_stem(filename) {
            Some(stem) => stem_with_each(stem, extensions),
            None => Seq::empty(),
        }
    }
}

/// The names generated for a pick list: for each picked name in turn, what
/// it contributes.
pub open spec fn generated_filenames(filenames: Seq<Seq<char>>, extensions: Seq<Seq<char>>) -> Seq<
    Seq<char>,
> {
    filenames.map_values(|f: Seq<char>| names_from(f, extensions)).flatten()
}

/// A picked name that can be used: it is empty, and skipped, or it has a
/// stem.
pub open spec fn usable(filename: Seq<char>) -> bool {
    filename.len() == 0 || path_file_stem(filename) is Some
}

/// `stem.extension`.
pub fn join_stem(stem: &str, extension: &str) -> (name: String)
    ensures
        name@ == stem_with(stem@, extension@),
{
    let mut name = String::from_str(stem);
    name.push('.');
    name.append(extension);
    assert(name@ =~= stem_with(stem@, extension@));
    name
}

/// Appends to `names` the stem combined with each extension.
pub fn push_names_for_stem(names: &mut Vec<String>, stem: &str, extensions: &Vec<String>)
    ensures
        texts(final(names)@) == texts(old(names)@) + stem_with_each(stem@, texts(extensions@)),
{
    let ghost before = texts(names@);
    let ghost wanted = stem_with_each(stem@, texts(extensions@));
    let mut i: usize = 0;
    while i < extensions.len()
        invariant
            i <= extensions.len(),
            wanted == stem_with_each(stem@, texts(extensions@)),
            texts(names@) == before + wanted.take(i as int),
        decreases extensions.len() - i,
    {
        let name = join_stem(stem, extensions[i].as_str());
        proof {
            lemma_texts_push(names@, name);
            assert(wanted[i as int] == name@);
            assert(before + wanted.take(i + 1) =~= (before + wanted.take(i as int)).push(name@));
        }
        names.push(name);
        i += 1;
    }
    assert(wanted.take(extensions.len() as int) =~= wanted);
}

/// The candidate names for a pick list. Empty picked names are skipped; each
/// other one gives, for every extension in turn, its stem, a dot and the
/// extension.
pub fn generate_filenames(filenames: Vec<String>, extensions: &Vec<String>) -> (generated: Vec<
    String,
>)
    requires
        forall|i: int| 0 <= i < filenames.len() ==> usable(#[trigger] filenames[i]@),
    ensures
        texts(generated@) == generated_filenames(texts(filenames@), texts(extensions@)),
{
    let ghost picked = texts(filenames@);
    let ghost wanted = texts(extensions@);
    let ghost parts = picked.map_values(|f: Seq<char>| names_from(f, wanted));
    let mut generated: Vec<String> = Vec::new();
    let mut i: usize = 0;
    assert(texts(generated@) =~= parts.take(0).flatten());
    while i < filenames.len()
        invariant
            i <= filenames.len(),
            picked == texts(filenames@),
            wanted == texts(extensions@),
            parts == picked.map_values(|f: Seq<char>| names_from(f, wanted)),
            forall|j: int| 0 <= j < filenames.len() ==> usable(#[trigger] filenames[j]@),
            texts(generated@) == parts.take(i as int).flatten(),
        decreases filenames.len() - i,
    {
        let filename = &filenames[i];
        let ghost so_far = texts(generated@);
        proof {
            assert(parts.take(i + 1) =~= parts.take(i as int).push(parts[i as int]));
            parts.take(i as int).lemma_flatten_push(parts[i as int]);
            assert(parts.take(i + 1).flatten() == so_far + parts[i as int]);
            assert(parts[i as int] == names_from(filename@, wanted));
            assert(usable(filenames[i as int]@));
        }
        if !filename.as_str().is_empty() {
            let stem = file_stem_of(filename.as_str());
            match stem {
                Some(stem) => {
                    push_names_for_stem(&mut generated, stem.as_str(), extensions);
                },
                None => {},
            }
        } else {
            assert(so_far + Seq::<Seq<char>>::empty() =~= so_far);
        }
        i += 1;
    }
    assert(parts.take(filenames.len() as int) =~= parts);
    generated
}

/// The candidate names for a pick list, or `None` where a picked name has no
/// stem to take (it ends in `..`, or is a bare root).
pub fn try_generate_filenames(filenames: Vec<String>, extensions: &Vec<String>) -> (generated:
    Option<Vec<String>>)
    ensures
        generated is Some <==> forall|i: int|
            0 <= i < filenames.len() ==> usable(#[trigger] filenames[i]@),
        generated matches Some(names) ==> texts(names@) == generated_filenames(
            texts(filenames@),
            texts(extensions@),
        ),
{
    let mut i: usize = 0;
    while i < filenames.len()
        invariant
            i <= filenames.len(),
            forall|j: int| 0 <= j < i ==> usable(#[trigger] filenames[j]@),
        decreases filenames.len() - i,
    {
        let filename = &filenames[i];
        if !filename.as_str().is_empty() {
            let stem = file_stem_of(filename.as_str());
            if stem.is_none() {
                assert(!usable(filenames[i as int]@));
                return None;
            }
        }
        i += 1;
    }
    Some(generate_filenames(filenames, extensions))
}

/// Each text without the whitespace at its ends.
pub open spec fn trimmed_each(parts: Seq<Seq<char>>) -> Seq<Seq<char>> {
    parts.map_values(|p: Seq<char>| trimmed(p))
}

/// The items of a list typed on one line, cut at `separator`, each without
/// the whitespace at its ends.
pub fn split_list(line: &str, separator: char) -> (items: Vec<String>)
    ensures
        texts(items@) == trimmed_each(pieces(line@, separator)),
{
    let parts = split_on(line, separator);
    let ghost cut = pieces(line@, separator);
    let mut items: Vec<String> = Vec::new();
    let mut i: usize = 0;
    assert(texts(items@) =~= trimmed_each(cut.take(0)));
    while i < parts.len()
        invariant
            i <= parts.len(),
            cut == texts(parts@),
            texts(items@) == trimmed_each(cut.take(i as int)),
        decreases parts.len() - i,
    {
        let item = String::from_str(trim_text(parts[i].as_str()));
        proof {
            lemma_texts_push(items@, item);
            assert(trimmed_each(cut.take(i + 1)) =~= trimmed_each(cut.take(i as int)).push(
                trimmed(cut[i as int]),
            ));
        }
        items.push(item);
        i += 1;
    }
    assert(cut.take(parts.len() as int) =~= cut);
    items
}

/// The picked names on the line the user typed: the items between commas,
/// or, where there is no comma, the items between blanks.
pub open spec fn listed_names(line: Seq<char>) -> Seq<Seq<char>> {
    if pieces(line, ',').len() < 2 {
        trimmed_each(pieces(line, ' '))
    } else {
        trimmed_each(pieces(line, ','))
    }
}

/// Reads the picked names off the line the user typed: the items between
/// commas, or, where there is no comma, the items between blanks.
pub fn split_names(line: &str) -> (names: Vec<String>)
    ensures
        texts(names@) == listed_names(line@),
{
    let by_comma = split_list(line, ',');
    if by_comma.len() < 2 {
        split_list(line, ' ')
    } else {
        by_comma
    }
}

/// Reads the wanted extensions off the line the user typed: the items
/// between commas.
pub fn split_extensions(line: &str) -> (extensions: Vec<String>)
    ensures
        texts(extensions@) == trimmed_each(pieces(line@, ',')),
{
    split_list(line, ',')
}

/// An answer that means yes: `y` or `Y`.
pub open spec fn affirmative(answer: Seq<char>) -> bool {
    answer == "y"@ || answer == "Y"@
}

/// Whether the line the user typed means yes: it is `y` or `Y` once the
/// whitespace at its ends is gone. Everything else means no.
pub fn is_yes(line: &str) -> (yes: bool)
    ensures
        yes == affirmative(trimmed(line@)),
{
    let answer = trim_text(line);
    same_text(answer, "y") || same_text(answer, "Y")
}

/// `text` without its backslashes.
pub open spec fn without_backslashes(text: Seq<char>) -> Seq<char> {
    text.filter(|c: char| c != '\\')
}

/// Removes every backslash from `text`.
pub fn strip_backslashes(text: &str) -> (out: String)
    ensures
        out@ == without_backslashes(text@),
{
    let mut out = String::new();
    let chars = text.chars();
    proof {
        reveal(Seq::filter);
        assert(text@.take(0) =~= Seq::<char>::empty());
    }
    for c in it: chars
        invariant
            it.seq() == text@,
            out@ == without_backslashes(text@.take(it.index() as int)),
    {
        proof {
            reveal(Seq::filter);
            assert(text@.take(it.index() + 1).drop_last() =~= text@.take(it.index() as int));
            assert(text@.take(it.index() + 1).last() == c);
        }
        if c != '\\' {
            out.push(c);
        }
    }
    assert(text@.take(text@.len() as int) =~= text@);
    out
}

/// The folder that the user typed or pasted: the line without its
/// backslashes and without the whitespace at its ends.
pub fn clean_typed_path(line: &str) -> (path: String)
    ensures
        path@ == trimmed(without_backslashes(line@)),
{
    let plain = strip_backslashes(line);
    String::from_str(trim_text(plain.as_str()))
}

} // verus!
