//! Text helpers: dotted paths, prefixes and lists of names.

use vstd::prelude::*;

verus! {

/// The contents of a list of strings.
pub open spec fn texts(list: Seq<String>) -> Seq<Seq<char>> {
    Seq::new(list.len(), |i: int| list[i]@)
}

/// The content of an optional string.
pub open spec fn text_of(value: Option<String>) -> Option<Seq<char>> {
    match value {
        Some(s) => Some(s@),
        None => None,
    }
}

/// The pieces of `s` between the occurrences of `sep`; `n` separators give `n + 1` pieces.
pub open spec fn split_on(s: Seq<char>, sep: char) -> Seq<Seq<char>>
    decreases s.len(),
{
    if s.len() == 0 {
        seq![Seq::<char>::empty()]
    } else {
        let pieces = split_on(s.drop_last(), sep);
        if s.last() == sep {
            pieces.push(Seq::empty())
        } else {
            pieces.drop_last().push(pieces.last().push(s.last()))
        }
    }
}

/// The parts written one after the other, with `sep` between neighbours.
pub open spec fn join_with(parts: Seq<Seq<char>>, sep: char) -> Seq<char>
    decreases parts.len(),
{
    if parts.len() == 0 {
        Seq::empty()
    } else if parts.len() == 1 {
        parts[0]
    } else {
        join_with(parts.drop_last(), sep).push(sep) + parts.last()
    }
}

/// `name` below `prefix` in a dotted path; an empty prefix adds no dot.
pub open spec fn below(prefix: Seq<char>, name: Seq<char>) -> Seq<char> {
    if prefix.len() == 0 {
        name
    } else {
        prefix.push('.') + name
    }
}

/// Whether `s` begins with `prefix`.
pub open spec fn begins_with(s: Seq<char>, prefix: Seq<char>) -> bool {
    prefix.len() <= s.len() && s.take(prefix.len() as int) == prefix
}

/// A text always splits into at least one piece.
pub proof fn split_is_never_empty(s: Seq<char>, sep: char)
    ensures
        split_on(s, sep).len() >= 1,
    decreases s.len(),
{
    if s.len() > 0 {
        split_is_never_empty(s.drop_last(), sep);
    }
}

/// Splitting a text and joining the pieces with the same separator gives the text back.
pub proof fn join_undoes_split(s: Seq<char>, sep: char)
    ensures
        join_with(split_on(s, sep), sep) == s,
    decreases s.len(),
{
    if s.len() > 0 {
        let head = s.drop_last();
        let pieces = split_on(head, sep);
        join_undoes_split(head, sep);
        split_is_never_empty(head, sep);
        let all = split_on(s, sep);
        if s.last() == sep {
            assert(all.drop_last() =~= pieces);
            assert(join_with(all, sep) =~= head.push(sep));
        } else {
            assert(all.drop_last() =~= pieces.drop_last());
            if pieces.len() == 1 {
                assert(join_with(all, sep) =~= head.push(s.last()));
            } else {
                assert(join_with(pieces, sep) == join_with(pieces.drop_last(), sep).push(sep)
                    + pieces.last());
                assert(join_with(all, sep) =~= head.push(s.last()));
            }
        }
        assert(s =~= head.push(s.last()));
    } else {
        assert(s =~= Seq::empty());
    }
}

/// No piece of a split contains the separator.
pub proof fn split_pieces_hold_no_separator(s: Seq<char>, sep: char, i: int)
    requires
        0 <= i < split_on(s, sep).len(),
    ensures
        !split_on(s, sep)[i].contains(sep),
    decreases s.len(),
{
    if s.len() > 0 {
        let head = s.drop_last();
        let pieces = split_on(head, sep);
        split_is_never_empty(head, sep);
        if i < pieces.len() {
            split_pieces_hold_no_separator(head, sep, i);
        }
        if s.last() != sep && i == pieces.len() - 1 {
            let piece = split_on(s, sep)[i];
            assert forall|k: int| 0 <= k < piece.len() implies piece[k] != sep by {
                if k < piece.len() - 1 {
                    assert(piece[k] == pieces.last()[k]);
                }
            }
        }
    }
}

/// Cuts a text into the pieces between the occurrences of `sep`.
pub fn split_text(text: &str, sep: char) -> (r: Vec<String>)
    ensures
        texts(r@) == split_on(text@, sep),
{
    broadcast use vstd::string::axiom_spec_iter;

    let n: usize = text.unicode_len();
    let mut pieces: Vec<String> = Vec::new();
    let mut start: usize = 0;
    let mut i: usize = 0;
    assert(text@.take(0) =~= Seq::empty());
    assert(texts(pieces@).push(text@.subrange(0, 0)) =~= split_on(text@.take(0), sep));
    for c in it: text.chars()
        invariant
            it.seq() == text@,
            i == it.index(),
            n == text@.len(),
            start <= i <= n,
            texts(pieces@).push(text@.subrange(start as int, i as int)) == split_on(
                text@.take(i as int),
                sep,
            ),
    {
        let ghost before = split_on(text@.take(i as int), sep);
        let ghost next = text@.take(i + 1);
        assert(next.drop_last() =~= text@.take(i as int));
        assert(before.last() == text@.subrange(start as int, i as int));
        assert(before.drop_last() =~= texts(pieces@));
        if c == sep {
            pieces.push(text.substring_char(start, i).to_string());
            start = i + 1;
            assert(texts(pieces@) =~= before);
            assert(text@.subrange(start as int, i + 1) =~= Seq::empty());
        } else {
            assert(text@.subrange(start as int, i + 1) =~= text@.subrange(
                start as int,
                i as int,
            ).push(text@[i as int]));
        }
        i = i + 1;
    }
    let ghost done = texts(pieces@);
    pieces.push(text.substring_char(start, n).to_string());
    assert(texts(pieces@) =~= done.push(text@.subrange(start as int, n as int)));
    assert(text@.take(n as int) =~= text@);
    pieces
}

/// Cuts a dotted path into its components.
pub fn split_dots(path: &str) -> (r: Vec<String>)
    ensures
        texts(r@) == split_on(path@, '.'),
{
    split_text(path, '.')
}

/// Writes the components of a path with dots between them.
pub fn join_dots(parts: &Vec<String>) -> (r: String)
    ensures
        r@ == join_with(texts(parts@), '.'),
{
    let mut out: String = String::new();
    let mut i: usize = 0;
    let ghost all = texts(parts@);
    while i < parts.len()
        invariant
            i <= parts.len(),
            all == texts(parts@),
            out@ == join_with(all.take(i as int), '.'),
        decreases parts.len() - i,
    {
        proof {
            reveal_strlit(".");
            assert(all.take(i + 1).drop_last() =~= all.take(i as int));
        }
        if i > 0 {
            out.append(".");
            assert(out@ =~= join_with(all.take(i as int), '.').push('.'));
        }
        out.append(parts[i].as_str());
        assert(out@ =~= join_with(all.take(i + 1), '.'));
        i = i + 1;
    }
    assert(all.take(i as int) =~= all);
    out
}

/// Writes `name` below `prefix` in a dotted path.
pub fn path_below(prefix: &String, name: &String) -> (r: String)
    ensures
        r@ == below(prefix@, name@),
{
    if prefix.as_str().is_empty() {
        name.clone()
    } else {
        let mut out: String = prefix.clone();
        proof {
            reveal_strlit(".");
        }
        out.append(".");
        out.append(name.as_str());
        assert(out@ =~= prefix@.push('.') + name@);
        out
    }
}

/// Tells whether `s` begins with `prefix`.
pub fn has_prefix(s: &str, prefix: &str) -> (r: bool)
    ensures
        r == begins_with(s@, prefix@),
{
    let n: usize = prefix.unicode_len();
    if n <= s.unicode_len() {
        let head: String = s.substring_char(0, n).to_string();
        let wanted: String = prefix.to_string();
        assert(s@.subrange(0, n as int) =~= s@.take(n as int));
        head == wanted
    } else {
        false
    }
}

/// Tells whether two lists hold the same texts in the same order.
pub fn same_texts(a: &Vec<String>, b: &Vec<String>) -> (r: bool)
    ensures
        r == (texts(a@) == texts(b@)),
{
    if a.len() != b.len() {
        assert(texts(a@).len() != texts(b@).len());
        return false;
    }
    let mut i: usize = 0;
    while i < a.len()
        invariant
            i <= a.len() == b.len(),
            forall|k: int| 0 <= k < i ==> a@[k]@ == b@[k]@,
        decreases a.len() - i,
    {
        if !(a[i] == b[i]) {
            assert(texts(a@)[i as int] != texts(b@)[i as int]);
            return false;
        }
        i = i + 1;
    }
    assert(texts(a@) =~= texts(b@));
    true
}

/// Copies a list of texts.
pub fn copy_texts(list: &Vec<String>) -> (r: Vec<String>)
    ensures
        texts(r@) == texts(list@),
{
    let mut out: Vec<String> = Vec::new();
    let mut i: usize = 0;
    while i < list.len()
        invariant
            i <= list.len(),
            out.len() == i,
            forall|k: int| 0 <= k < i ==> out@[k]@ == list@[k]@,
        decreases list.len() - i,
    {
        out.push(list[i].clone());
        i = i + 1;
    }
    assert(texts(out@) =~= texts(list@));
    out
}

/// Tells whether a list holds a text.
pub fn list_has(list: &Vec<String>, wanted: &String) -> (r: bool)
    ensures
        r == texts(list@).contains(wanted@),
{
    let mut i: usize = 0;
    while i < list.len()
        invariant
            i <= list.len(),
            forall|k: int| 0 <= k < i ==> list@[k]@ != wanted@,
        decreases list.len() - i,
    {
        if list[i] == *wanted {
            assert(texts(list@)[i as int] == wanted@);
            return true;
        }
        i = i + 1;
    }
    assert forall|k: int| 0 <= k < texts(list@).len() implies texts(list@)[k] != wanted@ by {
        assert(list@[k]@ != wanted@);
    }
    false
}

/// Tells whether two optional texts are the same.
pub fn same_option(a: &Option<String>, b: &Option<String>) -> (r: bool)
    ensures
        r == (text_of(*a) == text_of(*b)),
{
    match (a, b) {
        (Some(x), Some(y)) => *x == *y,
        (None, None) => true,
        _ => false,
    }
}

/// A line without the carriage return that is part of its line ending.
pub open spec fn without_return(line: Seq<char>) -> Seq<char> {
    if line.len() > 0 && line.last() == '\r' {
        line.drop_last()
    } else {
        line
    }
}

/// The lines of a text; a line ends in a line feed, which a carriage return may precede, and the
/// last line may lack its ending.
pub open spec fn lines_of(text: Seq<char>) -> Seq<Seq<char>> {
    let pieces = split_on(text, '\n');
    let ended = pieces.drop_last().map_values(|line: Seq<char>| without_return(line));
    if pieces.last().len() == 0 {
        ended
    } else {
        ended.push(pieces.last())
    }
}

/// Cuts a text into its lines.
pub fn source_lines(text: &str) -> (r: Vec<String>)
    ensures
        texts(r@) == lines_of(text@),
{
    let pieces: Vec<String> = split_text(text, '\n');
    let ghost all = split_on(text@, '\n');
    proof {
        split_is_never_empty(text@, '\n');
    }
    let n: usize = pieces.len();
    let mut lines: Vec<String> = Vec::new();
    let mut i: usize = 0;
    while i + 1 < n
        invariant
            n == pieces.len() == all.len(),
            n >= 1,
            i <= n - 1,
            texts(pieces@) == all,
            lines.len() == i,
            forall|k: int|
                0 <= k < i ==> (#[trigger] texts(lines@)[k]) == without_return(all[k]),
        decreases n - i,
    {
        let ghost before = texts(lines@);
        let line: &String = &pieces[i];
        let length: usize = line.as_str().unicode_len();
        assert(all[i as int] == line@);
        if length > 0 && line.as_str().get_char(length - 1) == '\r' {
            lines.push(line.as_str().substring_char(0, length - 1).to_string());
            assert(line@.subrange(0, length - 1) =~= line@.drop_last());
        } else {
            lines.push(line.clone());
        }
        assert forall|k: int| 0 <= k < i + 1 implies (#[trigger] texts(lines@)[k])
            == without_return(all[k]) by {
            if k < i {
                assert(texts(lines@)[k] == before[k]);
            }
        }
        i = i + 1;
    }
    let ghost ended = texts(lines@);
    assert(ended =~= all.drop_last().map_values(|line: Seq<char>| without_return(line)));
    assert(all[n - 1] == pieces@[n - 1]@);
    if pieces[n - 1].as_str().unicode_len() != 0 {
        lines.push(pieces[n - 1].clone());
        assert(texts(lines@) =~= ended.push(all.last()));
    }
    lines
}

} // verus!
