//! Splitting text on a separator, joining it back, and small renderings
//! (padding, rules of dashes, decimal numbers).
use vstd::prelude::*;

verus! {

/// The pieces of `s` between occurrences of `sep`; always at least one.
pub open spec fn split_on(s: Seq<char>, sep: char) -> Seq<Seq<char>>
    decreases s.len(),
{
    if s.len() == 0 {
        seq![Seq::<char>::empty()]
    } else {
        let r = split_on(s.drop_last(), sep);
        if s.last() == sep {
            r.push(Seq::<char>::empty())
        } else {
            r.update(r.len() - 1, r.last().push(s.last()))
        }
    }
}

/// The pieces joined with `sep` between neighbours.
pub open spec fn join_with(parts: Seq<Seq<char>>, sep: char) -> Seq<char>
    decreases parts.len(),
{
    if parts.len() == 0 {
        Seq::<char>::empty()
    } else if parts.len() == 1 {
        parts[0]
    } else {
        join_with(parts.drop_last(), sep).push(sep) + parts.last()
    }
}

pub open spec fn free_of(s: Seq<char>, c: char) -> bool {
    forall|i: int| 0 <= i < s.len() ==> s[i] != c
}

pub proof fn lemma_split_nonempty(s: Seq<char>, sep: char)
    ensures
        split_on(s, sep).len() >= 1,
    decreases s.len(),
{
    if s.len() > 0 {
        lemma_split_nonempty(s.drop_last(), sep);
    }
}

/// Joining the pieces of a split gives the text back.
pub proof fn lemma_join_split(s: Seq<char>, sep: char)
    ensures
        join_with(split_on(s, sep), sep) == s,
    decreases s.len(),
{
    if s.len() > 0 {
        let p = s.drop_last();
        let r = split_on(p, sep);
        lemma_split_nonempty(p, sep);
        lemma_join_split(p, sep);
        if s.last() == sep {
            let r2 = r.push(Seq::<char>::empty());
            assert(r2.drop_last() =~= r);
            assert(join_with(r2, sep) =~= p.push(sep));
        } else {
            let r2 = r.update(r.len() - 1, r.last().push(s.last()));
            if r.len() == 1 {
                assert(join_with(r2, sep) =~= s);
            } else {
                assert(r2.drop_last() =~= r.drop_last());
                let jd = join_with(r.drop_last(), sep).push(sep);
                assert(join_with(r2, sep) == jd + r.last().push(s.last()));
                assert(join_with(r, sep) == jd + r.last());
                assert(jd + r.last().push(s.last()) =~= (jd + r.last()).push(s.last()));
                assert(join_with(r2, sep) =~= s);
            }
        }
        assert(s =~= p.push(s.last()));
    }
}

/// Splitting `x + y`, where `y` holds no separator, extends the last piece of `x`.
pub proof fn lemma_split_append_free(x: Seq<char>, y: Seq<char>, sep: char)
    requires
        free_of(y, sep),
    ensures
        split_on(x + y, sep) == split_on(x, sep).update(
            split_on(x, sep).len() - 1,
            split_on(x, sep).last() + y,
        ),
    decreases y.len(),
{
    lemma_split_nonempty(x, sep);
    let r = split_on(x, sep);
    if y.len() == 0 {
        assert(x + y =~= x);
        assert(r.last() + y =~= r.last());
        assert(r.update(r.len() - 1, r.last() + y) =~= r);
    } else {
        let y0 = y.drop_last();
        assert(free_of(y0, sep));
        lemma_split_append_free(x, y0, sep);
        assert((x + y).drop_last() =~= x + y0);
        assert((x + y).last() == y.last());
        assert(y.last() != sep);
        assert(r.last() + y =~= (r.last() + y0).push(y.last()));
        assert(split_on(x + y, sep) =~= r.update(r.len() - 1, r.last() + y));
    }
}

/// Splitting pieces joined with the separator, none of which holds it, gives the pieces back.
pub proof fn lemma_split_join(parts: Seq<Seq<char>>, sep: char)
    requires
        parts.len() >= 1,
        forall|i: int| 0 <= i < parts.len() ==> free_of(#[trigger] parts[i], sep),
    ensures
        split_on(join_with(parts, sep), sep) == parts,
    decreases parts.len(),
{
    if parts.len() == 1 {
        let e = Seq::<char>::empty();
        lemma_split_append_free(e, parts[0], sep);
        assert(e + parts[0] =~= parts[0]);
        assert(split_on(e, sep).update(0, split_on(e, sep).last() + parts[0]) =~= parts);
    } else {
        let init = parts.drop_last();
        lemma_split_join(init, sep);
        let j = join_with(init, sep).push(sep);
        assert(split_on(j, sep) =~= init.push(Seq::<char>::empty())) by {
            assert(j.drop_last() =~= join_with(init, sep));
        }
        lemma_split_append_free(j, parts.last(), sep);
        assert(Seq::<char>::empty() + parts.last() =~= parts.last());
        assert(init.push(Seq::<char>::empty()).update(init.len() as int, parts.last()) =~= parts);
    }
}

/// No piece of a split holds the separator.
pub proof fn lemma_split_pieces_free(s: Seq<char>, sep: char)
    ensures
        forall|i: int| 0 <= i < split_on(s, sep).len() ==> free_of(#[trigger] split_on(s, sep)[i], sep),
    decreases s.len(),
{
    if s.len() > 0 {
        lemma_split_pieces_free(s.drop_last(), sep);
        lemma_split_nonempty(s.drop_last(), sep);
        let r = split_on(s.drop_last(), sep);
        if s.last() != sep {
            assert forall|i: int| 0 <= i < split_on(s, sep).len() implies free_of(
                #[trigger] split_on(s, sep)[i],
                sep,
            ) by {
                if i == r.len() - 1 {
                    assert(free_of(r[i], sep));
                    let q = r[i].push(s.last());
                    assert forall|k: int| 0 <= k < q.len() implies q[k] != sep by {
                        if k < r[i].len() {
                            assert(q[k] == r[i][k]);
                        }
                    }
                }
            }
        } else {
            assert forall|i: int| 0 <= i < split_on(s, sep).len() implies free_of(
                #[trigger] split_on(s, sep)[i],
                sep,
            ) by {
                if i < r.len() {
                    assert(split_on(s, sep)[i] == r[i]);
                }
            }
        }
    }
}

/// Text that splits into a single piece is that piece, and holds no separator.
pub proof fn lemma_single_piece(s: Seq<char>, sep: char)
    requires
        split_on(s, sep).len() == 1,
    ensures
        split_on(s, sep)[0] == s,
        free_of(s, sep),
{
    lemma_join_split(s, sep);
    lemma_split_pieces_free(s, sep);
    assert(free_of(split_on(s, sep)[0], sep));
}

/// The pieces of `s` between occurrences of `sep`, as `String`s.
pub fn split_text(s: &str, sep: char) -> (r: Vec<String>)
    ensures
        r@.map_values(|p: String| p@) == split_on(s@, sep),
{
    let n = s.unicode_len();
    let mut done: Vec<String> = Vec::new();
    let mut start: usize = 0;
    let mut i: usize = 0;
    proof {
        let e = s@.subrange(0, 0);
        assert(e =~= Seq::<char>::empty());
        assert(split_on(e, sep) == seq![Seq::<char>::empty()]);
        assert(done@.map_values(|p: String| p@) =~= Seq::<Seq<char>>::empty());
        assert(done@.map_values(|p: String| p@).push(e) =~= split_on(e, sep));
    }
    while i < n
        invariant
            n == s@.len(),
            start <= i <= n,
            done@.map_values(|p: String| p@).push(s@.subrange(start as int, i as int))
                == split_on(s@.subrange(0, i as int), sep),
        decreases n - i,
    {
        let c = s.get_char(i);
        let ghost pre = s@.subrange(0, i as int);
        assert(s@.subrange(0, i + 1).drop_last() =~= pre);
        if c == sep {
            let piece = String::from_str(s.substring_char(start, i));
            done.push(piece);
            start = i + 1;
            assert(done@.map_values(|p: String| p@) =~= split_on(pre, sep));
            assert(s@.subrange(start as int, i + 1) =~= Seq::<char>::empty());
        } else {
            assert(s@.subrange(start as int, i + 1) =~= s@.subrange(start as int, i as int).push(c));
        }
        i = i + 1;
    }
    let last = String::from_str(s.substring_char(start, n));
    done.push(last);
    assert(s@.subrange(0, n as int) =~= s@);
    assert(done@.map_values(|p: String| p@) =~= split_on(s@, sep));
    done
}


/// Joins the pieces with the one-character separator `sep`.
pub fn join_text(parts: &Vec<String>, sep: &str) -> (r: String)
    requires
        sep@.len() == 1,
    ensures
        r@ == join_with(parts@.map_values(|p: String| p@), sep@[0]),
{
    let ghost view = parts@.map_values(|p: String| p@);
    let mut out = String::new();
    let mut i: usize = 0;
    while i < parts.len()
        invariant
            i <= parts@.len(),
            view == parts@.map_values(|p: String| p@),
            sep@.len() == 1,
            out@ == join_with(view.subrange(0, i as int), sep@[0]),
        decreases parts@.len() - i,
    {
        let ghost before = out@;
        if i > 0 {
            out.append(sep);
        }
        out.append(parts[i].as_str());
        proof {
            let sub = view.subrange(0, i + 1);
            assert(sub.drop_last() =~= view.subrange(0, i as int));
            if i == 0 {
                assert(before =~= Seq::<char>::empty());
                assert(out@ =~= sub[0]);
            } else {
                assert(sep@ =~= seq![sep@[0]]);
                assert(out@ =~= before.push(sep@[0]) + sub.last());
            }
        }
        i = i + 1;
    }
    assert(view.subrange(0, parts@.len() as int) =~= view);
    out
}

pub open spec fn repeat(c: char, k: nat) -> Seq<char> {
    Seq::new(k, |_i: int| c)
}

/// `s` followed by spaces up to `w` characters; unchanged when already that long.
pub open spec fn pad(s: Seq<char>, w: nat) -> Seq<char> {
    if s.len() >= w {
        s
    } else {
        s + repeat(' ', (w - s.len()) as nat)
    }
}

/// Appends `k` copies of the one-character `unit`.
pub fn append_repeat(out: &mut String, unit: &str, k: usize)
    requires
        unit@.len() == 1,
    ensures
        final(out)@ == old(out)@ + repeat(unit@[0], k as nat),
{
    let ghost start = out@;
    let mut i: usize = 0;
    while i < k
        invariant
            i <= k,
            unit@.len() == 1,
            out@ == start + repeat(unit@[0], i as nat),
        decreases k - i,
    {
        out.append(unit);
        assert(repeat(unit@[0], (i + 1) as nat) =~= repeat(unit@[0], i as nat) + unit@);
        assert(out@ =~= start + repeat(unit@[0], (i + 1) as nat));
        i = i + 1;
    }
}

/// Appends `s` padded with spaces to `w` characters.
pub fn append_padded(out: &mut String, s: &str, w: usize)
    ensures
        final(out)@ == old(out)@ + pad(s@, w as nat),
{
    out.append(s);
    let len = s.unicode_len();
    proof {
        reveal_strlit(" ");
    }
    if len < w {
        append_repeat(out, " ", w - len);
        assert(final(out)@ =~= old(out)@ + pad(s@, w as nat)) by {
            assert(" "@ =~= seq![' ']);
        }
    } else {
        assert(s@ =~= pad(s@, w as nat));
    }
}

pub open spec fn digit_char(d: nat) -> char {
    if d == 0 {
        '0'
    } else if d == 1 {
        '1'
    } else if d == 2 {
        '2'
    } else if d == 3 {
        '3'
    } else if d == 4 {
        '4'
    } else if d == 5 {
        '5'
    } else if d == 6 {
        '6'
    } else if d == 7 {
        '7'
    } else if d == 8 {
        '8'
    } else {
        '9'
    }
}

/// The decimal digits of `n`, most significant first, without leading zeros.
pub open spec fn decimal(n: nat) -> Seq<char>
    decreases n,
{
    if n < 10 {
        seq![digit_char(n)]
    } else {
        decimal(n / 10).push(digit_char(n % 10))
    }
}

fn digit_text(d: usize) -> (r: &'static str)
    requires
        d < 10,
    ensures
        r@ == seq![digit_char(d as nat)],
{
    proof {
        reveal_strlit("0");
        reveal_strlit("1");
        reveal_strlit("2");
        reveal_strlit("3");
        reveal_strlit("4");
        reveal_strlit("5");
        reveal_strlit("6");
        reveal_strlit("7");
        reveal_strlit("8");
        reveal_strlit("9");
    }
    let r = if d == 0 {
        "0"
    } else if d == 1 {
        "1"
    } else if d == 2 {
        "2"
    } else if d == 3 {
        "3"
    } else if d == 4 {
        "4"
    } else if d == 5 {
        "5"
    } else if d == 6 {
        "6"
    } else if d == 7 {
        "7"
    } else if d == 8 {
        "8"
    } else {
        "9"
    };
    assert(r@ =~= seq![digit_char(d as nat)]);
    r
}

/// Appends the decimal digits of `n`.
pub fn append_decimal(out: &mut String, n: usize)
    ensures
        final(out)@ == old(out)@ + decimal(n as nat),
    decreases n,
{
    if n >= 10 {
        append_decimal(out, n / 10);
        out.append(digit_text(n % 10));
        assert(final(out)@ =~= old(out)@ + decimal(n as nat));
    } else {
        out.append(digit_text(n));
        assert(final(out)@ =~= old(out)@ + decimal(n as nat));
    }
}

} // verus!
