use vstd::prelude::*;
use vstd::string::StrSliceExecFns;

verus! {

/// The views of a sequence of strings.
pub open spec fn views(v: Seq<String>) -> Seq<Seq<char>> {
    v.map_values(|s: String| s@)
}

/// `n` blanks.
pub open spec fn spaces(n: nat) -> Seq<char> {
    Seq::new(n, |_i: int| ' ')
}

/// What a character becomes when it stands at column `at`: a tab moves on to the next
/// column that is a multiple of eight, any other character stays itself.
pub open spec fn expand_char(c: char, at: nat) -> Seq<char> {
    if c == '\t' {
        spaces((8 - at % 8) as nat)
    } else {
        seq![c]
    }
}

/// `s` with its tabs expanded, when its first character stands at column `col`.
pub open spec fn expand_tabs(s: Seq<char>, col: nat) -> Seq<char>
    decreases s.len(),
{
    if s.len() == 0 {
        seq![]
    } else {
        let pre = expand_tabs(s.drop_last(), col);
        pre + expand_char(s.last(), col + pre.len())
    }
}

/// Fragments of one row with their tabs expanded; the first starts at a column whose
/// remainder modulo eight is `phase`, and each of the others where the one before ends.
pub open spec fn expand_fragments(fs: Seq<Seq<char>>, phase: nat) -> Seq<Seq<char>>
    decreases fs.len(),
{
    if fs.len() == 0 {
        seq![]
    } else {
        let first = expand_tabs(fs[0], phase);
        seq![first] + expand_fragments(fs.drop_first(), (phase + first.len()) % 8)
    }
}

/// The number of characters in a row of fragments.
pub open spec fn width(fs: Seq<Seq<char>>) -> nat
    decreases fs.len(),
{
    if fs.len() == 0 {
        0
    } else {
        fs[0].len() + width(fs.drop_first())
    }
}

/// The characters of a row of fragments, in order.
pub open spec fn concat(fs: Seq<Seq<char>>) -> Seq<char>
    decreases fs.len(),
{
    if fs.len() == 0 {
        seq![]
    } else {
        fs[0] + concat(fs.drop_first())
    }
}

/// The fragments that hold the first `keep` characters of a row: those that fit whole,
/// then the first one that overflows, cut to what is left of `keep`.
pub open spec fn cut(fs: Seq<Seq<char>>, keep: nat) -> Seq<Seq<char>>
    decreases fs.len(),
{
    if fs.len() == 0 {
        seq![]
    } else if fs[0].len() > keep {
        seq![fs[0].take(keep as int)]
    } else {
        seq![fs[0]] + cut(fs.drop_first(), (keep - fs[0].len()) as nat)
    }
}

/// Relies on String::push: the character is appended at the end of the string.
#[verifier::external_body]
pub(crate) fn push_char(s: &mut String, c: char)
    ensures
        final(s)@ == old(s)@.push(c),
{
    s.push(c);
}

/// The characters of `s`, in order.
pub fn chars_of(s: &str) -> (r: Vec<char>)
    ensures
        r@ == s@,
{
    let mut out: Vec<char> = Vec::new();
    for c in it: s.chars()
        invariant
            out@ == it.history(),
    {
        out.push(c);
    }
    out
}

/// The number of characters of `s`.
pub fn char_count(s: &String) -> (r: usize)
    ensures
        r == s@.len(),
{
    s.as_str().unicode_len()
}

/// The first `k` characters of `s`.
pub fn prefix_of(s: &String, k: usize) -> (r: String)
    requires
        k <= s@.len(),
    ensures
        r@ == s@.take(k as int),
{
    s.as_str().substring_char(0, k).to_owned()
}

/// `s` with its tabs expanded, its first character standing at column `phase`.
pub fn expand_tabs_at(s: &String, phase: usize) -> (r: String)
    requires
        phase < 8,
    ensures
        r@ == expand_tabs(s@, phase as nat),
{
    let chars = chars_of(s.as_str());
    let mut out = String::new();
    let mut ph: usize = phase;
    let mut i: usize = 0;
    while i < chars.len()
        invariant
            chars@ == s@,
            0 <= i <= chars.len(),
            ph < 8,
            ph == (phase + out@.len()) % 8,
            out@ == expand_tabs(chars@.take(i as int), phase as nat),
        decreases chars.len() - i,
    {
        let c = chars[i];
        let ghost before = out@;
        if c == '\t' {
            let gap: usize = 8 - ph;
            let mut k: usize = 0;
            while k < gap
                invariant
                    0 <= k <= gap,
                    out@ == before + spaces(k as nat),
                decreases gap - k,
            {
                push_char(&mut out, ' ');
                proof {
                    assert(before + spaces((k + 1) as nat) =~= (before + spaces(k as nat)).push(' '));
                }
                k = k + 1;
            }
            ph = 0;
        } else {
            push_char(&mut out, c);
            ph = (ph + 1) % 8;
        }
        proof {
            let t = chars@.take(i + 1);
            assert(t.drop_last() =~= chars@.take(i as int));
            assert(t.last() == c);
            if c != '\t' {
                assert(before.push(c) =~= before + seq![c]);
            }
        }
        i = i + 1;
    }
    proof {
        assert(chars@.take(chars@.len() as int) =~= chars@);
    }
    out
}

/// The fragments of a row with their tabs expanded, the row starting at column zero.
pub fn expand_row(fs: &Vec<String>) -> (r: Vec<String>)
    ensures
        views(r@) == expand_fragments(views(fs@), 0),
{
    let mut out: Vec<String> = Vec::new();
    let mut ph: usize = 0;
    let mut i: usize = 0;
    proof {
        assert(views(fs@).skip(0) =~= views(fs@));
        assert(views(out@) =~= Seq::<Seq<char>>::empty());
        assert(views(out@) + views(fs@) =~= views(fs@));
    }
    while i < fs.len()
        invariant
            0 <= i <= fs.len(),
            ph < 8,
            expand_fragments(views(fs@), 0) == views(out@) + expand_fragments(
                views(fs@).skip(i as int),
                ph as nat,
            ),
        decreases fs.len() - i,
    {
        let e = expand_tabs_at(&fs[i], ph);
        let n = char_count(&e);
        let next: usize = (ph + n % 8) % 8;
        proof {
            let rest = views(fs@).skip(i as int);
            assert(rest[0] == fs@[i as int]@);
            assert(rest.drop_first() =~= views(fs@).skip(i + 1));
            assert(next == (ph + n) % 8) by (nonlinear_arith)
                requires next == (ph + n % 8) % 8;
            assert(expand_fragments(rest, ph as nat) == seq![e@] + expand_fragments(
                views(fs@).skip(i + 1),
                next as nat,
            ));
            assert(views(out@.push(e)) =~= views(out@).push(e@));
            assert(views(out@) + (seq![e@] + expand_fragments(views(fs@).skip(i + 1), next as nat))
                =~= views(out@).push(e@) + expand_fragments(views(fs@).skip(i + 1), next as nat));
        }
        out.push(e);
        ph = next;
        i = i + 1;
    }
    proof {
        assert(views(fs@).skip(fs@.len() as int) =~= Seq::<Seq<char>>::empty());
        assert(views(out@) + Seq::<Seq<char>>::empty() =~= views(out@));
    }
    out
}

/// Whether the fragments hold at most `avail` characters in all.
pub fn fits_within(fs: &Vec<String>, avail: usize) -> (r: bool)
    ensures
        r == (width(views(fs@)) <= avail),
{
    let mut rem: usize = avail;
    let mut i: usize = 0;
    proof {
        assert(views(fs@).skip(0) =~= views(fs@));
    }
    while i < fs.len()
        invariant
            0 <= i <= fs.len(),
            (width(views(fs@)) <= avail) == (width(views(fs@).skip(i as int)) <= rem),
        decreases fs.len() - i,
    {
        let n = char_count(&fs[i]);
        proof {
            let rest = views(fs@).skip(i as int);
            assert(rest[0] == fs@[i as int]@);
            assert(rest.drop_first() =~= views(fs@).skip(i + 1));
        }
        if n > rem {
            return false;
        }
        rem = rem - n;
        i = i + 1;
    }
    proof {
        assert(views(fs@).skip(fs@.len() as int) =~= Seq::<Seq<char>>::empty());
    }
    true
}

/// The fragments that hold the first `keep` characters of the row `fs`.
pub fn cut_row(fs: &Vec<String>, keep: usize) -> (r: Vec<String>)
    ensures
        views(r@) == cut(views(fs@), keep as nat),
{
    let mut out: Vec<String> = Vec::new();
    let mut rem: usize = keep;
    let mut i: usize = 0;
    proof {
        assert(views(fs@).skip(0) =~= views(fs@));
        assert(views(out@) + views(fs@) =~= views(fs@));
    }
    while i < fs.len()
        invariant
            0 <= i <= fs.len(),
            cut(views(fs@), keep as nat) == views(out@) + cut(views(fs@).skip(i as int), rem as nat),
        decreases fs.len() - i,
    {
        let n = char_count(&fs[i]);
        let ghost rest = views(fs@).skip(i as int);
        proof {
            assert(rest[0] == fs@[i as int]@);
            assert(rest.drop_first() =~= views(fs@).skip(i + 1));
        }
        if n > rem {
            let part = prefix_of(&fs[i], rem);
            proof {
                assert(views(out@.push(part)) =~= views(out@).push(part@));
                assert(views(out@) + cut(rest, rem as nat) =~= views(out@).push(part@));
            }
            out.push(part);
            return out;
        }
        let whole = fs[i].clone();
        proof {
            assert(views(out@.push(whole)) =~= views(out@).push(whole@));
            assert(views(out@) + cut(rest, rem as nat) =~= views(out@).push(whole@) + cut(
                views(fs@).skip(i + 1),
                (rem - n) as nat,
            ));
        }
        out.push(whole);
        rem = rem - n;
        i = i + 1;
    }
    proof {
        assert(views(fs@).skip(fs@.len() as int) =~= Seq::<Seq<char>>::empty());
        assert(views(out@) + Seq::<Seq<char>>::empty() =~= views(out@));
    }
    out
}

/// Cutting a row that holds more than `keep` characters leaves exactly `keep` of them.
pub proof fn lemma_cut_width(fs: Seq<Seq<char>>, keep: nat)
    requires
        width(fs) > keep,
    ensures
        width(cut(fs, keep)) == keep,
    decreases fs.len(),
{
    if fs[0].len() > keep {
        let c = cut(fs, keep);
        assert(c.drop_first() =~= Seq::<Seq<char>>::empty());
        assert(width(c) == fs[0].take(keep as int).len() + width(c.drop_first()));
    } else {
        lemma_cut_width(fs.drop_first(), (keep - fs[0].len()) as nat);
        let c = cut(fs, keep);
        assert(c.drop_first() =~= cut(fs.drop_first(), (keep - fs[0].len()) as nat));
    }
}

/// The width of a row is the number of its characters.
pub proof fn lemma_width_concat(fs: Seq<Seq<char>>)
    ensures
        width(fs) == concat(fs).len(),
    decreases fs.len(),
{
    if fs.len() > 0 {
        lemma_width_concat(fs.drop_first());
    }
}

/// Appending a fragment appends its characters.
pub proof fn lemma_concat_push(fs: Seq<Seq<char>>, f: Seq<char>)
    ensures
        concat(fs.push(f)) == concat(fs) + f,
    decreases fs.len(),
{
    if fs.len() == 0 {
        assert(fs.push(f).drop_first() =~= Seq::<Seq<char>>::empty());
        assert(concat(fs.push(f).drop_first()) == Seq::<char>::empty());
        assert(fs.push(f)[0] == f);
        assert(f + Seq::<char>::empty() =~= Seq::<char>::empty() + f);
    } else {
        lemma_concat_push(fs.drop_first(), f);
        assert(fs.push(f).drop_first() =~= fs.drop_first().push(f));
        assert(fs.push(f)[0] == fs[0]);
        assert(fs[0] + (concat(fs.drop_first()) + f) =~= (fs[0] + concat(fs.drop_first())) + f);
    }
}

/// Cutting a row that holds more than `keep` characters keeps exactly its first `keep`
/// characters, in order.
pub proof fn lemma_cut_concat(fs: Seq<Seq<char>>, keep: nat)
    requires
        width(fs) > keep,
    ensures
        concat(cut(fs, keep)) == concat(fs).take(keep as int),
    decreases fs.len(),
{
    let c = cut(fs, keep);
    if fs[0].len() > keep {
        assert(c.drop_first() =~= Seq::<Seq<char>>::empty());
        assert(concat(c.drop_first()) == Seq::<char>::empty());
        assert(c[0] == fs[0].take(keep as int));
        assert(concat(c) =~= fs[0].take(keep as int));
        assert((fs[0] + concat(fs.drop_first())).take(keep as int) =~= fs[0].take(keep as int));
    } else {
        let k2 = (keep - fs[0].len()) as nat;
        lemma_cut_concat(fs.drop_first(), k2);
        lemma_width_concat(fs.drop_first());
        assert(c.drop_first() =~= cut(fs.drop_first(), k2));
        assert(c[0] == fs[0]);
        assert(fs[0] + concat(fs.drop_first()).take(k2 as int) =~= (fs[0] + concat(
            fs.drop_first(),
        )).take(keep as int));
    }
}

} // verus!
