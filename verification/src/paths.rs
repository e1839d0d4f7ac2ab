//! A model of Unix paths as character sequences: splitting a path into its
//! components, appending one path to another, and naming the last component.

use vstd::prelude::*;
use vstd::string::*;

verus! {

/// The final character of a non-empty string is the separator `/`.
pub open spec fn ends_with_separator(s: Seq<char>) -> bool {
    s.len() > 0 && s.last() == '/'
}

/// `part` begins at the root of the file system.
pub open spec fn is_absolute(part: Seq<char>) -> bool {
    part.len() > 0 && part[0] == '/'
}

/// What appending `part` to `base` yields: an absolute `part` replaces
/// `base`; otherwise `part` follows `base`, after a separator where `base`
/// is not empty and does not already end with one.
pub open spec fn spec_push(base: Seq<char>, part: Seq<char>) -> Seq<char> {
    if is_absolute(part) {
        part
    } else if base.len() == 0 || ends_with_separator(base) {
        base + part
    } else {
        base + seq!['/'] + part
    }
}

/// Appends `part` to the path `base`.
pub fn push_path(base: &str, part: &str) -> (joined: String)
    ensures
        joined@ == spec_push(base@, part@),
{
    let part_len = part.unicode_len();
    if part_len > 0 && part.get_char(0) == '/' {
        return String::from_str(part);
    }
    let base_len = base.unicode_len();
    let mut joined = String::from_str(base);
    if base_len > 0 && base.get_char(base_len - 1) != '/' {
        joined.append("/");
        proof { reveal_strlit("/"); }
    }
    joined.append(part);
    proof {
        assert(base@.len() > 0 ==> base@.last() == base@[base_len - 1]);
    }
    joined
}


/// The pieces of `s` between occurrences of `sep`, from left to right; `s`
/// without `sep` is one piece, and two adjacent occurrences enclose an empty
/// one.
pub open spec fn split_on(s: Seq<char>, sep: char) -> Seq<Seq<char>>
    decreases s.len(),
{
    if s.len() == 0 {
        seq![Seq::empty()]
    } else {
        let before = split_on(s.drop_last(), sep);
        if s.last() == sep {
            before.push(Seq::empty())
        } else {
            before.update(before.len() - 1, before.last().push(s.last()))
        }
    }
}

/// A piece that names a component: neither empty nor the current directory.
pub open spec fn is_named_piece(piece: Seq<char>) -> bool {
    piece.len() > 0 && piece != seq!['.']
}

/// The pieces that name components, in order.
pub open spec fn named_pieces(pieces: Seq<Seq<char>>) -> Seq<Seq<char>> {
    pieces.filter(|p: Seq<char>| is_named_piece(p))
}

/// The component that a path starts with before its named pieces: the root
/// for an absolute path, the current directory for a path that is `.` or
/// starts with `./`, and none otherwise.
pub open spec fn leading_components(s: Seq<char>) -> Seq<Seq<char>> {
    if is_absolute(s) {
        seq![seq!['/']]
    } else if s.len() > 0 && s[0] == '.' && (s.len() == 1 || s[1] == '/') {
        seq![seq!['.']]
    } else {
        Seq::empty()
    }
}

/// The components of a path, each written as a string: `/` for the root,
/// `.` for a leading current directory, and the named pieces in order.
pub open spec fn spec_components(s: Seq<char>) -> Seq<Seq<char>> {
    leading_components(s) + named_pieces(split_on(s, '/'))
}

/// A component that is a name: not the root, `.` or `..`.
pub open spec fn is_normal_component(c: Seq<char>) -> bool {
    c != seq!['/'] && c != seq!['.'] && c != seq!['.', '.']
}

/// The last component of a path, where it is a name.
pub open spec fn spec_file_name(s: Seq<char>) -> Option<Seq<char>> {
    let comps = spec_components(s);
    if comps.len() > 0 && is_normal_component(comps.last()) {
        Some(comps.last())
    } else {
        None
    }
}

/// Adding a piece at the end keeps it among the named pieces exactly when it
/// names a component.
pub proof fn lemma_named_pieces_push(pieces: Seq<Seq<char>>, piece: Seq<char>)
    ensures
        named_pieces(pieces.push(piece)) == if is_named_piece(piece) {
            named_pieces(pieces).push(piece)
        } else {
            named_pieces(pieces)
        },
{
    reveal(Seq::filter);
    assert(pieces.push(piece).drop_last() =~= pieces);
}

/// Splitting never yields an empty list of pieces, and no piece holds the
/// separator.
pub proof fn lemma_split_shape(s: Seq<char>, sep: char)
    ensures
        split_on(s, sep).len() >= 1,
        forall|i: int, j: int|
            0 <= i < split_on(s, sep).len() && 0 <= j < split_on(s, sep)[i].len()
                ==> split_on(s, sep)[i][j] != sep,
    decreases s.len(),
{
    if s.len() > 0 {
        lemma_split_shape(s.drop_last(), sep);
    }
}

/// Appending characters other than the separator extends the last piece.
pub proof fn lemma_split_extend(s: Seq<char>, tail: Seq<char>, sep: char)
    requires
        forall|j: int| 0 <= j < tail.len() ==> tail[j] != sep,
    ensures
        split_on(s + tail, sep) == split_on(s, sep).update(
            split_on(s, sep).len() - 1,
            split_on(s, sep).last() + tail,
        ),
    decreases tail.len(),
{
    lemma_split_shape(s, sep);
    if tail.len() == 0 {
        assert(s + tail =~= s);
        assert(split_on(s, sep).last() + tail =~= split_on(s, sep).last());
        assert(split_on(s, sep).update(split_on(s, sep).len() - 1, split_on(s, sep).last())
            =~= split_on(s, sep));
    } else {
        let shorter = tail.drop_last();
        lemma_split_extend(s, shorter, sep);
        assert((s + tail).drop_last() =~= s + shorter);
        assert((s + tail).last() == tail.last());
        let before = split_on(s + shorter, sep);
        lemma_split_shape(s + shorter, sep);
        assert(split_on(s, sep).last() + shorter + seq![tail.last()] =~= split_on(s, sep).last()
            + tail);
        assert(before.last() == split_on(s, sep).last() + shorter);
        assert(before.last().push(tail.last()) =~= split_on(s, sep).last() + tail);
        assert(split_on(s + tail, sep) =~= split_on(s, sep).update(
            split_on(s, sep).len() - 1,
            split_on(s, sep).last() + tail,
        ));
    }
}


/// Whether a piece of a path names a component.
fn is_named(piece: &str) -> (named: bool)
    ensures
        named == is_named_piece(piece@),
{
    let len = piece.unicode_len();
    if len == 0 {
        false
    } else if len == 1 && piece.get_char(0) == '.' {
        assert(piece@ =~= seq!['.']);
        false
    } else {
        assert(piece@.len() == 1 ==> piece@[0] != '.');
        assert(piece@ != seq!['.']) by {
            if piece@ == seq!['.'] {
                assert(piece@[0] == '.');
            }
        }
        true
    }
}

/// Splits `text` at each occurrence of `sep`.
pub fn split_text(text: &str, sep: char) -> (pieces: Vec<String>)
    ensures
        pieces.deep_view() == split_on(text@, sep),
{
    let n = text.unicode_len();
    let mut pieces: Vec<String> = Vec::new();
    let mut start: usize = 0;
    let mut i: usize = 0;
    assert(text@.take(0) =~= Seq::<char>::empty());
    assert(split_on(text@.take(0), sep) =~= pieces.deep_view().push(text@.subrange(0, 0)));
    while i < n
        invariant
            n == text@.len(),
            start <= i <= n,
            split_on(text@.take(i as int), sep) == pieces.deep_view().push(
                text@.subrange(start as int, i as int),
            ),
        decreases n - i,
    {
        let c = text.get_char(i);
        let ghost prefix = text@.take(i + 1);
        assert(prefix.drop_last() =~= text@.take(i as int));
        assert(prefix.last() == c);
        if c == sep {
            let piece = text.substring_char(start, i);
            let ghost before = pieces.deep_view();
            pieces.push(String::from_str(piece));
            assert(pieces.deep_view() =~= before.push(piece@));
            assert(text@.subrange(i + 1, i + 1) =~= Seq::<char>::empty());
            start = i + 1;
        } else {
            assert(text@.subrange(start as int, i as int).push(c) =~= text@.subrange(
                start as int,
                i + 1,
            ));
        }
        i = i + 1;
    }
    let piece = text.substring_char(start, n);
    let ghost before = pieces.deep_view();
    pieces.push(String::from_str(piece));
    assert(pieces.deep_view() =~= before.push(piece@));
    assert(text@.take(n as int) =~= text@);
    pieces
}

/// The components of `path`: the root or a leading current directory, then
/// each named piece between separators.
pub fn path_components(path: &str) -> (comps: Vec<String>)
    ensures
        comps.deep_view() == spec_components(path@),
{
    let n = path.unicode_len();
    let mut comps: Vec<String> = Vec::new();
    if n > 0 && path.get_char(0) == '/' {
        comps.push(String::from_str("/"));
        proof { reveal_strlit("/"); }
    } else if n > 0 && path.get_char(0) == '.' && (n == 1 || path.get_char(1) == '/') {
        comps.push(String::from_str("."));
        proof { reveal_strlit("."); }
    }
    let ghost lead = comps.deep_view();
    assert(lead =~~= leading_components(path@));
    let pieces = split_text(path, '/');
    let ghost all = pieces.deep_view();
    let mut k: usize = 0;
    assert(all.take(0) =~= Seq::<Seq<char>>::empty());
    proof {
        reveal(Seq::filter);
        assert(comps.deep_view() =~= lead + named_pieces(all.take(0)));
    }
    while k < pieces.len()
        invariant
            k <= pieces.len(),
            all == pieces.deep_view(),
            comps.deep_view() == lead + named_pieces(all.take(k as int)),
        decreases pieces.len() - k,
    {
        let piece = pieces[k].as_str();
        assert(piece@ == all[k as int]);
        proof {
            assert(all.take(k + 1) =~= all.take(k as int).push(piece@));
            lemma_named_pieces_push(all.take(k as int), piece@);
        }
        let ghost before = comps.deep_view();
        if is_named(piece) {
            comps.push(String::from_str(piece));
            assert(comps.deep_view() =~= before.push(piece@));
        }
        k = k + 1;
        assert(comps.deep_view() =~~= lead + named_pieces(all.take(k as int)));
    }
    assert(all.take(pieces.len() as int) =~= all);
    comps
}

/// A single name: not empty, free of separators, and neither `.` nor `..`.
pub open spec fn is_plain_name(name: Seq<char>) -> bool {
    &&& is_named_piece(name)
    &&& is_normal_component(name)
    &&& forall|j: int| 0 <= j < name.len() ==> name[j] != '/'
}

/// Appending a single name to any path adds exactly that name as its last
/// component, which is then the path's file name.
pub proof fn lemma_push_name(base: Seq<char>, name: Seq<char>)
    requires
        is_plain_name(name),
    ensures
        spec_components(spec_push(base, name)) == spec_components(base).push(name),
        spec_file_name(spec_push(base, name)) == Some(name),
{
    lemma_push_piece(base, name);
}

/// A piece between separators: not empty, not `.`, free of separators.
pub open spec fn is_piece(piece: Seq<char>) -> bool {
    &&& is_named_piece(piece)
    &&& forall|j: int| 0 <= j < piece.len() ==> piece[j] != '/'
}

/// Appending a single piece (a name or `..`) to any path adds exactly that
/// piece as its last component.
pub proof fn lemma_push_piece(base: Seq<char>, name: Seq<char>)
    requires
        is_piece(name),
    ensures
        spec_components(spec_push(base, name)) == spec_components(base).push(name),
{
    let joined = spec_push(base, name);
    assert(!is_absolute(name)) by {
        if name.len() > 0 {
            assert(name[0] != '/');
        }
    }
    if base.len() == 0 {
        assert(joined =~= Seq::<char>::empty() + name);
        lemma_split_extend(Seq::empty(), name, '/');
        assert(split_on(Seq::<char>::empty(), '/') =~= seq![Seq::<char>::empty()]);
        assert(split_on(joined, '/') =~= seq![name]);
        lemma_named_pieces_push(Seq::empty(), name);
        lemma_named_pieces_push(Seq::empty(), Seq::empty());
        assert(seq![name] =~= Seq::<Seq<char>>::empty().push(name));
        assert(seq![Seq::<char>::empty()] =~= Seq::<Seq<char>>::empty().push(Seq::empty()));
        reveal(Seq::filter);
        assert(named_pieces(Seq::<Seq<char>>::empty()) =~= Seq::<Seq<char>>::empty());
        if name.len() == 1 && name[0] == '.' {
            assert(name =~= seq!['.']);
        }
        assert(leading_components(joined) =~= Seq::<Seq<char>>::empty());
        assert(leading_components(base) =~= Seq::<Seq<char>>::empty());
        assert(spec_components(joined) =~= spec_components(base).push(name));
    } else {
        let stem = if ends_with_separator(base) { base } else { base + seq!['/'] };
        assert(joined =~= stem + name);
        assert(stem.drop_last() =~= if ends_with_separator(base) { base.drop_last() } else { base });
        assert(stem.last() == '/');
        let rest = stem.drop_last();
        assert(split_on(stem, '/') == split_on(rest, '/').push(Seq::empty()));
        lemma_split_extend(stem, name, '/');
        lemma_split_shape(rest, '/');
        assert(Seq::<char>::empty() + name =~= name);
        assert(split_on(joined, '/') =~= split_on(rest, '/').push(name));
        lemma_named_pieces_push(split_on(rest, '/'), name);
        lemma_named_pieces_push(split_on(rest, '/'), Seq::empty());
        if ends_with_separator(base) {
            assert(split_on(base, '/') == split_on(rest, '/').push(Seq::empty()));
        } else {
            assert(rest =~= base);
        }
        assert(named_pieces(split_on(base, '/')) == named_pieces(split_on(rest, '/')));
        assert(joined[0] == base[0]);
        if base.len() >= 2 {
            assert(joined[1] == base[1]);
        } else if !ends_with_separator(base) {
            assert(joined[1] == '/');
        }
        assert(leading_components(joined) == leading_components(base));
        assert(spec_components(joined) =~= spec_components(base).push(name));
    }
}

/// Past the leading root or current directory, every component of a path is
/// a piece; an absolute path starts with the root.
pub proof fn lemma_components_are_pieces(s: Seq<char>)
    ensures
        forall|i: int|
            leading_components(s).len() <= i < spec_components(s).len() ==> is_piece(
                #[trigger] spec_components(s)[i],
            ),
        is_absolute(s) ==> leading_components(s).len() == 1 && spec_components(s)[0] == seq!['/'],
{
    let lead = leading_components(s);
    let pieces = split_on(s, '/');
    let named = named_pieces(pieces);
    let pred = |p: Seq<char>| is_named_piece(p);
    lemma_split_shape(s, '/');
    assert forall|i: int| lead.len() <= i < spec_components(s).len() implies is_piece(
        #[trigger] spec_components(s)[i],
    ) by {
        let c = spec_components(s)[i];
        assert(c == named[i - lead.len()]);
        pieces.lemma_filter_pred(pred, i - lead.len());
        pieces.lemma_filter_contains_rev(pred, c);
        let k = choose|k: int| 0 <= k < pieces.len() && pieces[k] == c;
        assert(forall|j: int| 0 <= j < c.len() ==> pieces[k][j] != '/');
    }
}

/// A file name is always a single plain name.
pub proof fn lemma_file_name_is_plain(s: Seq<char>)
    requires
        spec_file_name(s) is Some,
    ensures
        is_plain_name(spec_file_name(s)->0),
{
    let comps = spec_components(s);
    let lead = leading_components(s);
    let named = named_pieces(split_on(s, '/'));
    let last = comps.last();
    assert(lead.len() == 0 || lead =~= seq![seq!['/']] || lead =~= seq![seq!['.']]);
    if named.len() == 0 {
        assert(comps =~= lead);
        assert(false);
    }
    assert(last == named.last());
    let pred = |p: Seq<char>| is_named_piece(p);
    split_on(s, '/').lemma_filter_pred(pred, named.len() - 1);
    split_on(s, '/').lemma_filter_contains_rev(pred, last);
    lemma_split_shape(s, '/');
    let k = choose|k: int| 0 <= k < split_on(s, '/').len() && split_on(s, '/')[k] == last;
    assert(forall|j: int| 0 <= j < last.len() ==> split_on(s, '/')[k][j] != '/');
}


/// Whether a component is a name rather than the root, `.` or `..`.
fn is_normal(component: &str) -> (normal: bool)
    ensures
        normal == is_normal_component(component@),
{
    let len = component.unicode_len();
    if len == 1 && (component.get_char(0) == '/' || component.get_char(0) == '.') {
        assert(component@ =~= seq!['/'] || component@ =~= seq!['.']);
        false
    } else if len == 2 && component.get_char(0) == '.' && component.get_char(1) == '.' {
        assert(component@ =~= seq!['.', '.']);
        false
    } else {
        assert(is_normal_component(component@)) by {
            if component@ == seq!['/'] || component@ == seq!['.'] {
                assert(component@[0] == '/' || component@[0] == '.');
            }
            if component@ == seq!['.', '.'] {
                assert(component@[0] == '.' && component@[1] == '.');
            }
        }
        true
    }
}

/// The last component of `path`, where it is a name; `None` for a path that
/// is empty or ends in the root, `.` or `..`.
pub fn file_name(path: &str) -> (name: Option<String>)
    ensures
        name.deep_view() == spec_file_name(path@),
{
    let comps = path_components(path);
    let count = comps.len();
    if count == 0 {
        return None;
    }
    let last = comps[count - 1].as_str();
    assert(last@ == comps.deep_view()[count - 1]);
    if is_normal(last) {
        Some(String::from_str(last))
    } else {
        None
    }
}


/// Whether two strings hold the same characters.
pub fn same_text(a: &str, b: &str) -> (same: bool)
    ensures
        same == (a@ == b@),
{
    let n = a.unicode_len();
    if n != b.unicode_len() {
        return false;
    }
    let mut i: usize = 0;
    while i < n
        invariant
            n == a@.len() == b@.len(),
            i <= n,
            forall|j: int| 0 <= j < i ==> a@[j] == b@[j],
        decreases n - i,
    {
        if a.get_char(i) != b.get_char(i) {
            return false;
        }
        i = i + 1;
    }
    assert(a@ =~= b@);
    true
}


/// Two paths that name the same file as paths compare: component by
/// component, so that repeated separators and a `.` after the start do not
/// count.
pub open spec fn same_path(a: Seq<char>, b: Seq<char>) -> bool {
    spec_components(a) == spec_components(b)
}

/// Whether `a` and `b` have the same components.
pub fn paths_equal(a: &str, b: &str) -> (same: bool)
    ensures
        same == same_path(a@, b@),
{
    let ca = path_components(a);
    let cb = path_components(b);
    if ca.len() != cb.len() {
        assert(ca.deep_view().len() != cb.deep_view().len());
        return false;
    }
    let mut i: usize = 0;
    while i < ca.len()
        invariant
            ca.len() == cb.len(),
            ca.deep_view() == spec_components(a@),
            cb.deep_view() == spec_components(b@),
            i <= ca.len(),
            forall|j: int| 0 <= j < i ==> ca.deep_view()[j] == cb.deep_view()[j],
        decreases ca.len() - i,
    {
        if !same_text(ca[i].as_str(), cb[i].as_str()) {
            assert(ca.deep_view()[i as int] != cb.deep_view()[i as int]);
            return false;
        }
        i = i + 1;
    }
    assert(ca.deep_view() =~= cb.deep_view());
    true
}

/// Two paths name the same file exactly when their components are equal,
/// character for character; such paths then have the same file name and the
/// same number of components.
pub proof fn lemma_same_path_exact(a: Seq<char>, b: Seq<char>)
    ensures
        same_path(a, b) <==> spec_components(a) == spec_components(b),
        same_path(a, b) ==> spec_file_name(a) == spec_file_name(b),
        same_path(a, b) ==> forall|i: int, j: int|
            0 <= i < spec_components(a).len() && 0 <= j < spec_components(a)[i].len()
                ==> spec_components(a)[i][j] == #[trigger] spec_components(b)[i][j],
{
}

} // verus!
