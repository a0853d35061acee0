//! Path strings: normalization of client-supplied paths into canonical form,
//! and splitting/joining of canonical paths into slash-separated segments.
//!
//! A canonical path is either the root representation `"/"` or a
//! forward-slash-separated string with no leading slash.

use vstd::prelude::*;

verus! {

/// Relies on `alloc::string::String::push`, which std documents as appending
/// the given character to the end of the string.
pub assume_specification[ String::push ](s: &mut String, ch: char)
    ensures
        final(s)@ == old(s)@.push(ch),
;

/// One character of separator replacement: backslashes become forward slashes.
pub open spec fn slashify(c: char) -> char {
    if c == '\\' {
        '/'
    } else {
        c
    }
}

/// Separator replacement over a whole string.
pub open spec fn replace_slashes(s: Seq<char>) -> Seq<char> {
    s.map_values(|c: char| slashify(c))
}

/// Canonical form of a raw client-supplied path: backslashes become forward
/// slashes, exactly one leading slash is stripped when more than one
/// character remains, and the empty string becomes the root representation
/// `"/"` (a lone `"/"` already is that representation).
pub open spec fn normalize_spec(raw: Seq<char>) -> Seq<char> {
    let s = replace_slashes(raw);
    if s.len() == 0 {
        seq!['/']
    } else if s.len() > 1 && s[0] == '/' {
        s.skip(1)
    } else {
        s
    }
}

/// Splitting on `'/'`, with the semantics of `str::split`: the empty string
/// has one empty segment, and every separator starts a new segment.
pub open spec fn split_slash(s: Seq<char>) -> Seq<Seq<char>>
    decreases s.len(),
{
    if s.len() == 0 {
        seq![Seq::<char>::empty()]
    } else if s.last() == '/' {
        split_slash(s.drop_last()).push(Seq::<char>::empty())
    } else {
        let r = split_slash(s.drop_last());
        r.update(r.len() - 1, r.last().push(s.last()))
    }
}

/// Joining segments with `'/'` between them.
pub open spec fn join_slash(segs: Seq<Seq<char>>) -> Seq<char>
    decreases segs.len(),
{
    if segs.len() == 0 {
        Seq::empty()
    } else if segs.len() == 1 {
        segs[0]
    } else {
        join_slash(segs.drop_last()) + seq!['/'] + segs.last()
    }
}

/// A well-formed entry of the input path list: non-empty, forward slashes
/// only, and no empty segment (hence no leading or trailing slash).
pub open spec fn valid_entry(p: Seq<char>) -> bool {
    &&& p.len() > 0
    &&& forall|j: int| 0 <= j < split_slash(p).len() ==> split_slash(p)[j].len() > 0
    &&& forall|j: int| 0 <= j < p.len() ==> p[j] != '\\'
}

/// A split never yields zero segments.
pub proof fn lemma_split_nonempty(s: Seq<char>)
    ensures
        split_slash(s).len() >= 1,
    decreases s.len(),
{
    if s.len() > 0 {
        lemma_split_nonempty(s.drop_last());
    }
}

/// A string that starts with a slash splits into an empty first segment and
/// at least one further segment.
pub proof fn lemma_split_leading_slash(s: Seq<char>)
    requires
        s.len() >= 1,
        s[0] == '/',
    ensures
        split_slash(s).len() >= 2,
        split_slash(s)[0].len() == 0,
    decreases s.len(),
{
    lemma_split_nonempty(s.drop_last());
    if s.len() == 1 {
        assert(s.drop_last() =~= Seq::<char>::empty());
    } else {
        lemma_split_leading_slash(s.drop_last());
    }
}

/// Joining undoes splitting, for every string.
pub proof fn lemma_join_split(s: Seq<char>)
    ensures
        join_slash(split_slash(s)) == s,
    decreases s.len(),
{
    if s.len() == 0 {
        assert(join_slash(split_slash(s)) =~= s);
    } else {
        let t = s.drop_last();
        lemma_join_split(t);
        lemma_split_nonempty(t);
        let r = split_slash(t);
        if s.last() == '/' {
            assert(split_slash(s) == r.push(Seq::<char>::empty()));
            assert(r.push(Seq::<char>::empty()).drop_last() =~= r);
            assert(join_slash(split_slash(s)) =~= s);
        } else {
            let u = r.update(r.len() - 1, r.last().push(s.last()));
            assert(split_slash(s) == u);
            if r.len() == 1 {
                assert(join_slash(u) == u[0]);
                assert(u[0] =~= s);
            } else {
                let x = join_slash(r.drop_last());
                assert(u.drop_last() =~= r.drop_last());
                assert(join_slash(u) == x + seq!['/'] + u.last());
                assert(x + seq!['/'] + r.last() == t);
                assert(u.last() == r.last().push(s.last()));
                assert(join_slash(u) =~= (x + seq!['/'] + r.last()).push(s.last()));
                assert(t.push(s.last()) =~= s);
            }
        }
    }
}

/// No segment a split yields contains a separator.
pub proof fn lemma_split_no_slash(s: Seq<char>)
    ensures
        forall|j: int, k: int|
            0 <= j < split_slash(s).len() && 0 <= k < split_slash(s)[j].len() ==> #[trigger] split_slash(
                s,
            )[j][k] != '/',
    decreases s.len(),
{
    if s.len() > 0 {
        lemma_split_no_slash(s.drop_last());
        lemma_split_nonempty(s.drop_last());
    }
}

/// A string without separators splits into itself alone.
pub proof fn lemma_split_of_slash_free(s: Seq<char>)
    requires
        forall|k: int| 0 <= k < s.len() ==> s[k] != '/',
    ensures
        split_slash(s) == seq![s],
    decreases s.len(),
{
    if s.len() == 0 {
        assert(split_slash(s) =~~= seq![s]);
    } else {
        lemma_split_of_slash_free(s.drop_last());
        assert(split_slash(s) =~~= seq![s]);
    }
}

/// Appending a separator-free tail to a string extends its last segment.
pub proof fn lemma_split_append_slash_free(s: Seq<char>, y: Seq<char>)
    requires
        forall|k: int| 0 <= k < y.len() ==> y[k] != '/',
    ensures
        split_slash(s + y) == split_slash(s).update(
            split_slash(s).len() - 1,
            split_slash(s).last() + y,
        ),
    decreases y.len(),
{
    lemma_split_nonempty(s);
    if y.len() == 0 {
        assert(s + y =~= s);
        assert(split_slash(s).update(
            split_slash(s).len() - 1,
            split_slash(s).last() + y,
        ) =~~= split_slash(s));
    } else {
        let y0 = y.drop_last();
        lemma_split_append_slash_free(s, y0);
        assert((s + y).drop_last() =~= s + y0);
        assert((s + y).last() == y.last());
        let r = split_slash(s + y0);
        lemma_split_nonempty(s + y0);
        assert(split_slash(s + y) == r.update(r.len() - 1, r.last().push(y.last())));
        assert(r.last() == split_slash(s).last() + y0);
        assert((split_slash(s).last() + y0).push(y.last()) =~= split_slash(s).last() + y);
        assert(split_slash(s + y) =~~= split_slash(s).update(
            split_slash(s).len() - 1,
            split_slash(s).last() + y,
        ));
    }
}

/// Splitting undoes joining, for any list of separator-free segments.
pub proof fn lemma_split_join(segs: Seq<Seq<char>>)
    requires
        segs.len() >= 1,
        forall|j: int, k: int|
            0 <= j < segs.len() && 0 <= k < segs[j].len() ==> #[trigger] segs[j][k] != '/',
    ensures
        split_slash(join_slash(segs)) == segs,
    decreases segs.len(),
{
    if segs.len() == 1 {
        lemma_split_of_slash_free(segs[0]);
        assert(seq![segs[0]] =~~= segs);
    } else {
        let dl = segs.drop_last();
        lemma_split_join(dl);
        lemma_split_nonempty(join_slash(dl));
        assert(join_slash(segs) == join_slash(dl) + seq!['/'] + segs.last());
        let mid = join_slash(dl) + seq!['/'];
        assert(mid.drop_last() =~= join_slash(dl));
        assert(mid.last() == '/');
        assert(split_slash(mid) == split_slash(join_slash(dl)).push(Seq::<char>::empty()));
        assert(mid + segs.last() =~= join_slash(segs));
        lemma_split_append_slash_free(mid, segs.last());
        let r = split_slash(mid);
        assert(r == dl.push(Seq::<char>::empty()));
        assert(r.last() + segs.last() =~= segs.last());
        assert(r.update(r.len() - 1, r.last() + segs.last()) =~~= segs);
    }
}

/// A well-formed input entry is already canonical: normalization leaves it
/// unchanged.
pub proof fn lemma_normalize_valid_entry(p: Seq<char>)
    requires
        valid_entry(p),
    ensures
        normalize_spec(p) == p,
{
    assert(replace_slashes(p) =~= p);
    if p.len() > 1 && p[0] == '/' {
        lemma_split_leading_slash(p);
    }
}

/// The segments of a canonical path, as [`split_slash`] describes.
pub fn split_slash_exec(s: &str) -> (r: Vec<String>)
    ensures
        r.deep_view() == split_slash(s@),
        r@.len() >= 1,
{
    let n = s.unicode_len();
    let mut done: Vec<String> = Vec::new();
    let mut cur = String::new();
    let mut i: usize = 0;
    proof {
        assert(s@.take(0) =~= Seq::<char>::empty());
        assert(done.deep_view().push(cur@) =~~= split_slash(s@.take(0)));
    }
    while i < n
        invariant
            n == s@.len(),
            i <= n,
            done.deep_view().push(cur@) == split_slash(s@.take(i as int)),
        decreases n - i,
    {
        let ghost pre = s@.take(i as int);
        let c = s.get_char(i);
        proof {
            lemma_split_nonempty(pre);
            assert(s@.take(i + 1 as int).drop_last() =~= pre);
            assert(s@.take(i + 1 as int).last() == s@[i as int]);
        }
        if c == '/' {
            done.push(cur);
            cur = String::new();
            proof {
                assert(done.deep_view().push(cur@) =~~= split_slash(s@.take(i + 1 as int)));
            }
        } else {
            cur.push(c);
            proof {
                assert(done.deep_view().push(cur@) =~~= split_slash(s@.take(i + 1 as int)));
            }
        }
        i += 1;
    }
    proof {
        assert(s@.take(n as int) =~= s@);
    }
    done.push(cur);
    proof {
        assert(done.deep_view() =~~= split_slash(s@));
        lemma_split_nonempty(s@);
    }
    done
}

/// Canonical form of a raw client path, as [`normalize_spec`] describes.
pub fn normalize(raw: &str) -> (r: String)
    ensures
        r@ == normalize_spec(raw@),
{
    let n = raw.unicode_len();
    let mut out = String::new();
    let mut i: usize = 0;
    while i < n
        invariant
            n == raw@.len(),
            i <= n,
            out@ == replace_slashes(raw@).take(i as int),
        decreases n - i,
    {
        let c = raw.get_char(i);
        if c == '\\' {
            out.push('/');
        } else {
            out.push(c);
        }
        proof {
            assert(out@ =~= replace_slashes(raw@).take(i + 1 as int));
        }
        i += 1;
    }
    proof {
        assert(out@ =~= replace_slashes(raw@));
    }
    let m = out.as_str().unicode_len();
    if m == 0 {
        let root = String::from_str("/");
        proof {
            reveal_strlit("/");
            assert(root@ =~= normalize_spec(raw@));
        }
        root
    } else if m > 1 && out.as_str().get_char(0) == '/' {
        let stripped = String::from_str(out.as_str().substring_char(1, m));
        proof {
            assert(stripped@ =~= normalize_spec(raw@));
        }
        stripped
    } else {
        out
    }
}

} // verus!
