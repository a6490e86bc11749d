//! The tag list of a tabular row: given either as one `;`-joined field or as
//! a list already split, and in both cases trimmed piece by piece.
use vstd::prelude::*;
use vstd::string::*;
use crate::text::{split_once, split_once_char, trim, trimmed, lemma_split_once_at};

verus! {

/// The pieces of `s` between occurrences of `c`; a text without `c` is one
/// piece, and the empty text is one empty piece.
pub open spec fn split_on(s: Seq<char>, c: char) -> Seq<Seq<char>>
    decreases s.len(),
{
    if s.len() == 0 {
        seq![Seq::empty()]
    } else {
        let rest = split_on(s.drop_first(), c);
        if s[0] == c {
            seq![Seq::<char>::empty()] + rest
        } else {
            seq![seq![s[0]] + rest[0]] + rest.drop_first()
        }
    }
}

/// The pieces of `xs` put together with `c` between each two.
pub open spec fn join(xs: Seq<Seq<char>>, c: char) -> Seq<char>
    decreases xs.len(),
{
    if xs.len() == 0 {
        Seq::empty()
    } else if xs.len() == 1 {
        xs[0]
    } else {
        xs[0] + seq![c] + join(xs.drop_first(), c)
    }
}

/// Each piece trimmed.
pub open spec fn trim_each(xs: Seq<Seq<char>>) -> Seq<Seq<char>> {
    xs.map_values(|p: Seq<char>| trimmed(p))
}

/// The tags that a `;`-joined field holds.
pub open spec fn tag_list(s: Seq<char>) -> Seq<Seq<char>> {
    trim_each(split_on(s, ';'))
}

/// The characters of each string.
pub open spec fn string_views(v: Seq<String>) -> Seq<Seq<char>> {
    v.map_values(|t: String| t@)
}

/// A tag field as it may come: one joined text, or a list already split.
pub enum RawTags {
    Joined(String),
    Split(Vec<String>),
}

/// The tags that a raw tag field stands for.
pub open spec fn raw_tag_list(raw: RawTags) -> Seq<Seq<char>> {
    match raw {
        RawTags::Joined(s) => tag_list(s@),
        RawTags::Split(v) => trim_each(string_views(v@)),
    }
}

/// Splitting at the first `c` peels the first piece off `split_on`.
pub proof fn lemma_split_on_first(s: Seq<char>, c: char)
    ensures
        split_on(s, c).len() >= 1,
        match split_once(s, c) {
            Some((a, b)) => {
                &&& s == a + seq![c] + b
                &&& split_on(s, c) == seq![a] + split_on(b, c)
            },
            None => split_on(s, c) == seq![s],
        },
    decreases s.len(),
{
    if s.len() == 0 {
        assert(s =~= Seq::<char>::empty());
    } else {
        let t = s.drop_first();
        lemma_split_on_first(t, c);
        assert(s =~= seq![s[0]] + t);
        if s[0] == c {
            assert(s =~= Seq::<char>::empty() + seq![c] + t);
        } else {
            match split_once(t, c) {
                Some((a, b)) => {
                    assert(s =~= (seq![s[0]] + a) + seq![c] + b);
                    assert((seq![a] + split_on(b, c)).drop_first() =~= split_on(b, c));
                    assert(split_on(s, c) =~= seq![seq![s[0]] + a] + split_on(b, c));
                },
                None => {
                    assert(seq![s[0]] + t =~= s);
                    assert(split_on(s, c) =~= seq![s]);
                },
            }
        }
    }
}

/// Joining pieces that hold no separator and splitting again gives the pieces back.
pub proof fn lemma_split_join(xs: Seq<Seq<char>>, c: char)
    requires
        xs.len() > 0,
        forall|i: int| 0 <= i < xs.len() ==> !xs[i].contains(c),
    ensures
        split_on(join(xs, c), c) == xs,
    decreases xs.len(),
{
    let x = xs[0];
    assert forall|j: int| 0 <= j < x.len() implies x[j] != c by {
        if x[j] == c {
            assert(x.contains(c));
        }
    }
    if xs.len() == 1 {
        lemma_split_once_at(x, c, x.len() as int);
        lemma_split_on_first(x, c);
        assert(xs =~= seq![x]);
    } else {
        let rest = xs.drop_first();
        assert forall|i: int| 0 <= i < rest.len() implies !rest[i].contains(c) by {
            assert(rest[i] == xs[i + 1]);
        }
        lemma_split_join(rest, c);
        let s = join(xs, c);
        let k = x.len() as int;
        assert(s == x + seq![c] + join(rest, c));
        assert forall|j: int| 0 <= j < k implies s[j] != c by {
            assert(s[j] == x[j]);
        }
        lemma_split_once_at(s, c, k);
        assert(s.subrange(0, k) =~= x);
        assert(s.subrange(k + 1, s.len() as int) =~= join(rest, c));
        lemma_split_on_first(s, c);
        assert(xs =~= seq![x] + rest);
    }
}

/// A tag field gives the same tags whether it comes as a list of pieces or
/// as those pieces joined with `;`, provided the list is not empty and no
/// piece holds a `;`.
pub proof fn lemma_joined_and_split_agree(xs: Seq<Seq<char>>)
    requires
        xs.len() > 0,
        forall|i: int| 0 <= i < xs.len() ==> !xs[i].contains(';'),
    ensures
        tag_list(join(xs, ';')) == trim_each(xs),
{
    lemma_split_join(xs, ';');
}

/// Splits a `;`-joined tag field into its trimmed tags, in order.
pub fn deserialize_tags(s: &str) -> (r: Vec<String>)
    ensures
        string_views(r@) == tag_list(s@),
{
    let mut out: Vec<String> = Vec::new();
    let mut rest: &str = s;
    loop
        invariant
            string_views(out@) + trim_each(split_on(rest@, ';')) == tag_list(s@),
        decreases rest@.len(),
    {
        proof {
            lemma_split_on_first(rest@, ';');
        }
        match split_once_char(rest, ';') {
            Some((a, b)) => {
                let piece = trim(a).to_owned();
                proof {
                    assert(string_views(out@.push(piece)) =~= string_views(out@) + seq![trimmed(a@)]);
                    assert(trim_each(seq![a@] + split_on(b@, ';')) =~= seq![trimmed(a@)] + trim_each(
                        split_on(b@, ';'),
                    ));
                }
                out.push(piece);
                rest = b;
            },
            None => {
                let piece = trim(rest).to_owned();
                proof {
                    assert(string_views(out@.push(piece)) =~= string_views(out@) + seq![trimmed(rest@)]);
                    assert(trim_each(seq![rest@]) =~= seq![trimmed(rest@)]);
                }
                out.push(piece);
                return out;
            },
        }
    }
}

/// The tags of a raw tag field, trimmed, in order.
pub fn tags_from(raw: &RawTags) -> (r: Vec<String>)
    ensures
        string_views(r@) == raw_tag_list(*raw),
{
    match raw {
        RawTags::Joined(s) => deserialize_tags(s.as_str()),
        RawTags::Split(v) => {
            let mut out: Vec<String> = Vec::new();
            let mut i: usize = 0;
            assert(string_views(out@) =~= trim_each(string_views(v@)).take(0));
            while i < v.len()
                invariant
                    i <= v@.len(),
                    string_views(out@) == trim_each(string_views(v@)).take(i as int),
                decreases v@.len() - i,
            {
                let piece = trim(v[i].as_str()).to_owned();
                proof {
                    assert(string_views(out@.push(piece)) =~= string_views(out@) + seq![piece@]);
                    assert(trim_each(string_views(v@)).take(i + 1) =~= trim_each(string_views(v@)).take(
                        i as int,
                    ) + seq![trimmed(v@[i as int]@)]);
                }
                out.push(piece);
                i += 1;
            }
            assert(trim_each(string_views(v@)).take(i as int) =~= trim_each(string_views(v@)));
            out
        },
    }
}

} // verus!
