//! Path keys: joining segments with a separator and splitting them again.
use vstd::prelude::*;

verus! {

/// The key of a child: the parent's key, the separator and the child's
/// segment. At the top, where no segment has been joined yet, the child's
/// segment alone.
pub open spec fn join_key(prefix: Option<Seq<char>>, seg: Seq<char>, sep: Seq<char>) -> Seq<char> {
    match prefix {
        Some(p) => p + sep + seg,
        None => seg,
    }
}

/// The model of a key that may be the top.
pub open spec fn key_view(key: Option<String>) -> Option<Seq<char>> {
    match key {
        Some(p) => Some(p@),
        None => None,
    }
}

/// The text of a key; the top has the empty key.
pub open spec fn key_text(key: Option<Seq<char>>) -> Seq<char> {
    match key {
        Some(p) => p,
        None => Seq::empty(),
    }
}

/// The decimal digit for `d < 10`.
pub open spec fn digit_char(d: nat) -> char {
    if d == 0 { '0' }
    else if d == 1 { '1' }
    else if d == 2 { '2' }
    else if d == 3 { '3' }
    else if d == 4 { '4' }
    else if d == 5 { '5' }
    else if d == 6 { '6' }
    else if d == 7 { '7' }
    else if d == 8 { '8' }
    else { '9' }
}

/// The decimal text of `n`, without leading zeros.
pub open spec fn decimal(n: nat) -> Seq<char>
    decreases n,
{
    if n < 10 {
        seq![digit_char(n)]
    } else {
        decimal(n / 10).push(digit_char(n % 10))
    }
}

/// Splits `s` at each occurrence of `sep`, scanning from the left; the
/// empty separator splits before and after every character.
pub open spec fn split_on(s: Seq<char>, sep: Seq<char>) -> Seq<Seq<char>>
    decreases s.len(),
{
    if sep.len() == 0 {
        seq![Seq::<char>::empty()] + Seq::new(s.len(), |i: int| seq![s[i]]) + seq![
            Seq::<char>::empty(),
        ]
    } else if s.len() < sep.len() {
        seq![s]
    } else if s.subrange(0, sep.len() as int) == sep {
        seq![Seq::<char>::empty()] + split_on(s.subrange(sep.len() as int, s.len() as int), sep)
    } else {
        let rest = split_on(s.drop_first(), sep);
        rest.update(0, seq![s[0]] + rest[0])
    }
}

pub proof fn lemma_split_nonempty(s: Seq<char>, sep: Seq<char>)
    ensures
        split_on(s, sep).len() >= 1,
    decreases s.len(),
{
    if sep.len() != 0 && s.len() >= sep.len() {
        if s.subrange(0, sep.len() as int) != sep {
            lemma_split_nonempty(s.drop_first(), sep);
        }
    }
}

/// Relies on `FromIterator<&char> for String`: the string holds the given
/// characters in order.
#[verifier::external_body]
pub(crate) fn string_of(cs: &Vec<char>) -> (r: String)
    ensures
        r@ == cs@,
{
    cs.iter().collect()
}

/// The characters of `s`, in order.
pub fn chars_of(s: &str) -> (r: Vec<char>)
    ensures
        r@ == s@,
{
    let mut out: Vec<char> = Vec::new();
    for c in it: s.chars()
        invariant
            out@ == it.seq().subrange(0, it.index() as int),
    {
        out.push(c);
    }
    out
}


/// The models of a sequence of strings.
pub open spec fn views_of(v: Seq<String>) -> Seq<Seq<char>> {
    v.map_values(|x: String| x@)
}

proof fn lemma_split_step(t: Seq<char>, sep: Seq<char>)
    requires
        sep.len() > 0,
        t.len() > 0,
        !(t.len() >= sep.len() && t.subrange(0, sep.len() as int) == sep),
    ensures
        split_on(t, sep) == split_on(t.drop_first(), sep).update(
            0,
            seq![t[0]] + split_on(t.drop_first(), sep)[0],
        ),
{
    if t.len() < sep.len() {
        assert(seq![t[0]] + t.drop_first() =~= t);
    }
}

fn digit_of(d: usize) -> (r: char)
    requires
        d < 10,
    ensures
        r == digit_char(d as nat),
{
    match d {
        0 => '0',
        1 => '1',
        2 => '2',
        3 => '3',
        4 => '4',
        5 => '5',
        6 => '6',
        7 => '7',
        8 => '8',
        _ => '9',
    }
}

fn push_decimal(n: usize, out: &mut Vec<char>)
    ensures
        final(out)@ == old(out)@ + decimal(n as nat),
    decreases n,
{
    if n >= 10 {
        push_decimal(n / 10, out);
    }
    out.push(digit_of(n % 10));
    proof {
        if n < 10 {
            assert(n % 10 == n);
        }
        assert(old(out)@ + decimal(n as nat) =~= final(out)@);
    }
}

/// The decimal text of an array index, used as its path segment.
pub fn index_text(n: usize) -> (r: String)
    ensures
        r@ == decimal(n as nat),
{
    let mut cs: Vec<char> = Vec::new();
    push_decimal(n, &mut cs);
    assert(cs@ =~= decimal(n as nat));
    string_of(&cs)
}

/// Appends `seg` to the key `prefix` with `sep` between them; at the top
/// (`None`) the key is `seg` alone.
pub fn join(prefix: &Option<String>, seg: &str, sep: &str) -> (r: String)
    ensures
        r@ == join_key(key_view(*prefix), seg@, sep@),
{
    match prefix {
        Some(p) => {
            let mut key = p.clone();
            key.append(sep);
            key.append(seg);
            key
        },
        None => {
            let mut key = String::new();
            key.append(seg);
            key
        },
    }
}

fn matches_at(s: &Vec<char>, p: &Vec<char>, i: usize) -> (r: bool)
    requires
        i <= s.len(),
    ensures
        r == (i + p.len() <= s.len() && s@.subrange(i as int, i + p.len()) == p@),
{
    if p.len() > s.len() - i {
        return false;
    }
    let mut j: usize = 0;
    while j < p.len()
        invariant
            i + p.len() <= s.len(),
            j <= p.len(),
            forall|k: int| 0 <= k < j ==> s@[i + k] == p@[k],
        decreases p.len() - j,
    {
        if s[i + j] != p[j] {
            assert(s@.subrange(i as int, i + p.len())[j as int] != p@[j as int]);
            return false;
        }
        j += 1;
    }
    assert(s@.subrange(i as int, i + p.len()) =~= p@);
    true
}

/// Splits `key` at each occurrence of `sep`, as `str::split` does.
pub fn split_key(key: &str, sep: &str) -> (r: Vec<String>)
    ensures
        views_of(r@) == split_on(key@, sep@),
{
    let s = chars_of(key);
    let p = chars_of(sep);
    let mut segs: Vec<String> = Vec::new();
    if p.len() == 0 {
        segs.push(String::new());
        for i in 0..s.len()
            invariant
                s@ == key@,
                views_of(segs@) =~= seq![Seq::<char>::empty()] + Seq::new(
                    i as nat,
                    |k: int| seq![s@[k]],
                ),
        {
            let mut one: Vec<char> = Vec::new();
            one.push(s[i]);
            assert(one@ =~= seq![s@[i as int]]);
            let ghost before = views_of(segs@);
            segs.push(string_of(&one));
            assert(views_of(segs@) =~= before.push(one@));
        }
        segs.push(String::new());
        assert(views_of(segs@) =~= split_on(key@, sep@));
        return segs;
    }
    let n = s.len();
    let mut cur: Vec<char> = Vec::new();
    let mut i: usize = 0;
    proof {
        assert(s@.subrange(0, n as int) =~= s@);
        lemma_split_nonempty(s@, p@);
        let rest = split_on(s@, p@);
        assert(rest.update(0, cur@ + rest[0]) =~= rest);
        assert(views_of(segs@) + rest =~= rest);
    }
    while i < n
        invariant
            n == s.len(),
            s@ == key@,
            p@ == sep@,
            p.len() > 0,
            i <= n,
            split_on(s@, p@) == views_of(segs@) + split_on(s@.subrange(i as int, n as int), p@).update(
                0,
                cur@ + split_on(s@.subrange(i as int, n as int), p@)[0],
            ),
        decreases n - i,
    {
        let ghost t = s@.subrange(i as int, n as int);
        if matches_at(&s, &p, i) {
            let ghost t2 = s@.subrange(i + p.len(), n as int);
            proof {
                assert(t.subrange(0, p.len() as int) =~= s@.subrange(i as int, i + p.len()));
                assert(t.subrange(p.len() as int, t.len() as int) =~= t2);
                lemma_split_nonempty(t2, p@);
                let r2 = split_on(t2, p@);
                assert(split_on(t, p@) == seq![Seq::<char>::empty()] + r2);
                assert(split_on(t, p@).update(0, cur@ + split_on(t, p@)[0]) =~= seq![cur@] + r2);
                assert(r2.update(0, Seq::<char>::empty() + r2[0]) =~= r2);
            }
            let ghost before = views_of(segs@);
            let seg = string_of(&cur);
            segs.push(seg);
            assert(views_of(segs@) =~= before.push(cur@));
            cur = Vec::new();
            i = i + p.len();
        } else {
            let ghost t1 = s@.subrange(i + 1, n as int);
            let ghost old_cur = cur@;
            proof {
                assert(t.drop_first() =~= t1);
                if t.len() >= p.len() {
                    assert(t.subrange(0, p.len() as int) =~= s@.subrange(i as int, i + p.len()));
                }
                lemma_split_step(t, p@);
                lemma_split_nonempty(t1, p@);
            }
            cur.push(s[i]);
            i = i + 1;
            proof {
                let r1 = split_on(t1, p@);
                let r = split_on(t, p@);
                assert(t[0] == s@[i - 1]);
                assert(old_cur + (seq![t[0]] + r1[0]) =~= cur@ + r1[0]);
                assert(r.update(0, old_cur + r[0]) =~= r1.update(0, cur@ + r1[0]));
            }
        }
    }
    proof {
        assert(s@.subrange(n as int, n as int) =~= Seq::<char>::empty());
    }
    segs.push(string_of(&cur));
    segs
}

} // verus!
