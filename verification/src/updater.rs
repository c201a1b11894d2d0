//! What already lies in the destination.
//!
//! The answer comes from a snapshot of the directory that is taken before the
//! first download: a track that is there costs no request, and a file written in
//! the same run is no reason to skip another track of the same name.

use vstd::hash_set::StringHashSet;
use vstd::prelude::*;
use vstd::string::*;

use crate::text::{
    chars_of, lemma_single_piece, pieces, same, split, text_between, text_of, texts,
};

verus! {

/// What to do with a track that is already there.
#[derive(Debug, Clone, Copy, PartialEq, Eq, Structural)]
pub enum Mode {
    /// Download the whole list, over existing files.
    Full,
    /// Download what is missing.
    Update,
}

impl Mode {
    /// Whether the directory has to be read before the first download.
    pub fn needs_snapshot(&self) -> (r: bool)
        ensures
            r == (self == Mode::Update),
    {
        match self {
            Mode::Full => false,
            Mode::Update => true,
        }
    }
}

/// A path of the file system, which is passed on as it is.
#[verifier::external_type_specification]
#[verifier::external_body]
pub struct ExPathBuf(std::path::PathBuf);

/// Where to download to, and what to do with what is there.
#[derive(Debug, Clone, Copy)]
pub struct Destination<'a> {
    pub directory: &'a std::path::PathBuf,
    pub mode: Mode,
}

/// The components of a path that name something.
pub open spec fn named(components: Seq<Seq<char>>) -> Seq<Seq<char>>
    decreases components.len(),
{
    if components.len() == 0 {
        Seq::empty()
    } else {
        let before = named(components.drop_last());
        if components.last() == ""@ || components.last() == "."@ {
            before
        } else {
            before.push(components.last())
        }
    }
}

/// The last component of a path, unless it is the way up.
pub open spec fn file_name(path: Seq<char>) -> Option<Seq<char>> {
    let components = named(pieces(path, '/'));
    if components.len() == 0 || components.last() == ".."@ {
        None
    } else {
        Some(components.last())
    }
}

/// The position of the last dot, or `-1` without one.
pub open spec fn last_dot(s: Seq<char>) -> int
    decreases s.len(),
{
    if s.len() == 0 {
        -1
    } else if s.last() == '.' {
        s.len() - 1
    } else {
        last_dot(s.drop_last())
    }
}

/// A name without its extension: all before the last dot, unless that is the
/// first character.
pub open spec fn without_extension(name: Seq<char>) -> Seq<char> {
    if last_dot(name) <= 0 {
        name
    } else {
        name.take(last_dot(name))
    }
}

/// The name of a file without its extension.
pub open spec fn stem_in(path: Seq<char>) -> Option<Seq<char>> {
    match file_name(path) {
        Some(name) => Some(without_extension(name)),
        None => None,
    }
}

/// The name of a file without its extension.
pub fn file_stem(path: &str) -> (r: Option<String>)
    ensures
        text_of(r) == stem_in(path@),
{
    let parts = split(path, '/');
    let ghost all = texts(parts@);
    let mut last: Option<usize> = None;
    let mut i: usize = 0;
    while i < parts.len()
        invariant
            i <= parts@.len(),
            all == texts(parts@),
            match last {
                Some(at) => at < i && named(all.take(i as int)).len() > 0 && named(
                    all.take(i as int),
                ).last() == all[at as int],
                None => named(all.take(i as int)).len() == 0,
            },
        decreases parts@.len() - i,
    {
        proof {
            assert(all.take(i + 1).drop_last() =~= all.take(i as int));
        }
        if !same(parts[i].as_str(), "") && !same(parts[i].as_str(), ".") {
            last = Some(i);
        }
        i += 1;
    }
    proof {
        assert(all.take(i as int) =~= all);
    }
    match last {
        Some(at) => {
            if same(parts[at].as_str(), "..") {
                None
            } else {
                Some(before_extension(parts[at].as_str()))
            }
        },
        None => None,
    }
}

fn before_extension(name: &str) -> (r: String)
    ensures
        r@ == without_extension(name@),
{
    let chars = chars_of(name);
    let mut to: usize = chars.len();
    proof {
        assert(name@.take(to as int) =~= name@);
    }
    while to > 0 && chars[to - 1] != '.'
        invariant
            to <= chars@.len(),
            chars@ == name@,
            last_dot(name@) == last_dot(name@.take(to as int)),
        decreases to,
    {
        proof {
            assert(name@.take(to as int).drop_last() =~= name@.take(to - 1));
        }
        to -= 1;
    }
    proof {
        assert(chars@.subrange(0, chars@.len() as int) =~= name@);
    }
    if to <= 1 {
        text_between(chars.as_slice(), 0, chars.len())
    } else {
        proof {
            assert(chars@.subrange(0, to - 1) =~= name@.take(to - 1));
        }
        text_between(chars.as_slice(), 0, to - 1)
    }
}

/// The set of names in a list.
pub open spec fn name_set(names: Seq<Seq<char>>) -> Set<Seq<char>>
    decreases names.len(),
{
    if names.len() == 0 {
        Set::empty()
    } else {
        name_set(names.drop_last()).insert(names.last())
    }
}

/// The set of names in a list, without their extensions.
pub open spec fn stem_set(names: Seq<Seq<char>>) -> Set<Seq<char>>
    decreases names.len(),
{
    if names.len() == 0 {
        Set::empty()
    } else {
        let before = stem_set(names.drop_last());
        match stem_in(names.last()) {
            Some(stem) => before.insert(stem),
            None => before,
        }
    }
}

/// The texts of a list.
pub open spec fn words(list: Seq<&str>) -> Seq<Seq<char>> {
    Seq::new(list.len(), |i: int| list[i]@)
}

/// A snapshot of a directory.
pub struct Existing {
    names: StringHashSet,
    stems: StringHashSet,
}

impl Existing {
    /// The names of the files.
    pub closed spec fn files(self) -> Set<Seq<char>> {
        self.names@
    }

    /// The names of the files without their extensions.
    pub closed spec fn stems(self) -> Set<Seq<char>> {
        self.stems@
    }

    /// A snapshot of files with these names.
    pub fn from_names(names: &[&str]) -> (r: Self)
        ensures
            r.files() == name_set(words(names@)),
            r.stems() == stem_set(words(names@)),
    {
        let ghost all = words(names@);
        let mut files = StringHashSet::new();
        let mut stems = StringHashSet::new();
        let mut i: usize = 0;
        while i < names.len()
            invariant
                i <= names@.len(),
                all == words(names@),
                files@ == name_set(all.take(i as int)),
                stems@ == stem_set(all.take(i as int)),
            decreases names@.len() - i,
        {
            proof {
                assert(all.take(i + 1).drop_last() =~= all.take(i as int));
            }
            files.insert(names[i].to_owned());
            if let Some(stem) = file_stem(names[i]) {
                stems.insert(stem);
            }
            i += 1;
        }
        proof {
            assert(all.take(i as int) =~= all);
        }
        Existing { names: files, stems }
    }

    /// The names of the files.
    pub fn names(&self) -> (r: &StringHashSet)
        ensures
            r@ == self.files(),
    {
        &self.names
    }

    /// Whether there is a file of this name, with any extension.
    pub fn contains_stem(&self, stem: &str) -> (r: bool)
        ensures
            r == self.stems().contains(stem@),
    {
        self.stems.contains(stem)
    }
}

/// A snapshot knows exactly the names that were in the list.
pub proof fn law_snapshot(names: Seq<Seq<char>>, name: Seq<char>)
    ensures
        name_set(names).contains(name) <==> names.contains(name),
        stem_set(names).contains(name) <==> exists|i: int|
            0 <= i < names.len() && stem_in(#[trigger] names[i]) == Some(name),
    decreases names.len(),
{
    if names.len() > 0 {
        let before = names.drop_last();
        law_snapshot(before, name);
        if names.contains(name) {
            let i = choose|i: int| 0 <= i < names.len() && names[i] == name;
            if i < before.len() {
                assert(before[i] == name);
            }
        }
        if before.contains(name) {
            let i = choose|i: int| 0 <= i < before.len() && before[i] == name;
            assert(names[i] == name);
        }
        assert(names[names.len() - 1] == names.last());
        if stem_set(before).contains(name) {
            let i = choose|i: int|
                0 <= i < before.len() && stem_in(#[trigger] before[i]) == Some(name);
            assert(stem_in(names[i]) == Some(name));
        }
        if exists|i: int| 0 <= i < names.len() && stem_in(#[trigger] names[i]) == Some(name) {
            let i = choose|i: int|
                0 <= i < names.len() && stem_in(#[trigger] names[i]) == Some(name);
            if i < before.len() {
                assert(stem_in(before[i]) == Some(name));
            }
        }
    }
}

/// A path that is a single component.
proof fn lemma_single(name: Seq<char>)
    requires
        !name.contains('/'),
        name.len() > 2,
    ensures
        file_name(name) == Some(name),
{
    lemma_single_piece(name, '/');
    reveal_strlit("");
    reveal_strlit(".");
    reveal_strlit("..");
    assert(seq![name].drop_last() =~= Seq::empty());
    assert(named(seq![name].drop_last()) =~= Seq::empty());
    assert(named(seq![name]) =~= seq![name]);
}

/// The last dot is the one before the extension.
proof fn lemma_last_dot(a: Seq<char>, b: Seq<char>)
    requires
        !b.contains('.'),
    ensures
        last_dot(a.push('.') + b) == a.len(),
    decreases b.len(),
{
    let whole = a.push('.') + b;
    if b.len() == 0 {
        assert(whole =~= a.push('.'));
    } else {
        assert(b.contains(b.last()));
        assert forall|i: int| 0 <= i < b.drop_last().len() implies b.drop_last()[i] != '.' by {
            assert(b.contains(b[i]));
        }
        assert(whole.drop_last() =~= a.push('.') + b.drop_last());
        lemma_last_dot(a, b.drop_last());
    }
}

/// A finished file is known by its name without the extension.
pub proof fn law_finished_file_is_found(stem: Seq<char>, extension: Seq<char>)
    requires
        stem.len() > 0,
        !stem.contains('/'),
        extension.len() > 0,
        !extension.contains('/'),
        !extension.contains('.'),
    ensures
        stem_in(stem + "."@ + extension) == Some(stem),
{
    let name = stem + "."@ + extension;
    reveal_strlit(".");
    assert(name =~= stem.push('.') + extension);
    assert forall|i: int| 0 <= i < name.len() implies name[i] != '/' by {
        if i < stem.len() {
            assert(stem.contains(stem[i]));
        } else if i > stem.len() {
            assert(extension.contains(extension[i - stem.len() - 1]));
        }
    }
    lemma_single(name);
    lemma_last_dot(stem, extension);
    assert(name.take(stem.len() as int) =~= stem);
}

/// A remainder of a download that broke off is not taken for a finished file: it
/// is known by the whole name of that file, not by the name without extension.
pub proof fn law_unfinished_file_is_not_mistaken(stem: Seq<char>, extension: Seq<char>)
    requires
        stem.len() > 0,
        !stem.contains('/'),
        !extension.contains('/'),
    ensures
        stem_in(stem + "."@ + extension + ".part"@) == Some(stem + "."@ + extension),
        stem_in(stem + "."@ + extension + ".part"@) != Some(stem),
{
    let finished = stem + "."@ + extension;
    let name = finished + ".part"@;
    let part = seq!['p', 'a', 'r', 't'];
    reveal_strlit(".");
    reveal_strlit(".part");
    assert(name =~= finished.push('.') + part);
    assert forall|i: int| 0 <= i < name.len() implies name[i] != '/' by {
        if i < stem.len() {
            assert(stem.contains(stem[i]));
        } else if stem.len() < i < finished.len() {
            assert(extension.contains(extension[i - stem.len() - 1]));
        }
    }
    lemma_single(name);
    assert(!part.contains('.'));
    lemma_last_dot(finished, part);
    assert(name.take(finished.len() as int) =~= finished);
    assert(finished.len() > stem.len());
}

/// The last dot is a dot, and there is none behind it; without a dot there is none.
pub proof fn law_last_dot(s: Seq<char>)
    ensures
        -1 <= last_dot(s) < s.len(),
        last_dot(s) >= 0 ==> s[last_dot(s)] == '.',
        forall|i: int| last_dot(s) < i < s.len() ==> #[trigger] s[i] != '.',
    decreases s.len(),
{
    if s.len() > 0 && s.last() != '.' {
        let before = s.drop_last();
        law_last_dot(before);
        if last_dot(before) >= 0 {
            assert(before[last_dot(before)] == s[last_dot(before)]);
        }
        assert forall|i: int| last_dot(s) < i < s.len() implies #[trigger] s[i] != '.' by {
            if i < before.len() {
                assert(before[i] == s[i]);
            }
        }
    }
}

/// A file is known by its name up to the last dot, or by the whole name if there is no
/// dot in it but perhaps at its beginning.
pub proof fn law_stem_of_a_name(name: Seq<char>)
    requires
        name.len() > 0,
        !name.contains('/'),
        name != seq!['.'],
        name != seq!['.', '.'],
    ensures
        last_dot(name) > 0 ==> stem_in(name) == Some(name.take(last_dot(name))),
        last_dot(name) <= 0 ==> stem_in(name) == Some(name),
{
    lemma_single_piece(name, '/');
    reveal_strlit("");
    reveal_strlit(".");
    reveal_strlit("..");
    assert("."@ =~= seq!['.']);
    assert(".."@ =~= seq!['.', '.']);
    assert(seq![name].drop_last() =~= Seq::empty());
    assert(named(seq![name].drop_last()) =~= Seq::empty());
    assert(named(seq![name]) =~= seq![name]);
}

/// Only the last component of a path counts.
pub proof fn law_directories_do_not_count(directory: Seq<char>, name: Seq<char>)
    requires
        name.len() > 0,
        !name.contains('/'),
        name != seq!['.'],
        name != seq!['.', '.'],
    ensures
        stem_in(directory.push('/') + name) == stem_in(name),
{
    law_stem_of_a_name(name);
    lemma_single_piece(name, '/');
    crate::text::lemma_pieces_joined(directory, name, '/');
    let all = pieces(directory, '/') + seq![name];
    reveal_strlit("");
    reveal_strlit(".");
    reveal_strlit("..");
    assert("."@ =~= seq!['.']);
    assert(".."@ =~= seq!['.', '.']);
    assert(all.drop_last() =~= pieces(directory, '/'));
    assert(named(all).last() == name);
    assert(seq![name].drop_last() =~= Seq::empty());
    assert(named(seq![name].drop_last()) =~= Seq::empty());
    assert(named(seq![name]) =~= seq![name]);
}

} // verus!
