//! Text utilities: character-level views of strings, the ordering the report
//! sorts names by, and the small string builders the report text is made of.
use vstd::prelude::*;

verus! {

/// The character sequences of a list of strings.
pub open spec fn views(v: Seq<String>) -> Seq<Seq<char>> {
    v.map_values(|s: String| s@)
}

/// Lexicographic order on character sequences, comparing code points and
/// putting a proper prefix first. For UTF-8 text this is the order in which
/// `str` compares its bytes.
pub open spec fn seq_lt(a: Seq<char>, b: Seq<char>) -> bool
    decreases a.len(),
{
    if a.len() == 0 {
        b.len() > 0
    } else if b.len() == 0 {
        false
    } else if a[0] != b[0] {
        a[0] < b[0]
    } else {
        seq_lt(a.drop_first(), b.drop_first())
    }
}

pub proof fn lemma_lt_irreflexive(a: Seq<char>)
    ensures
        !seq_lt(a, a),
    decreases a.len(),
{
    if a.len() > 0 {
        lemma_lt_irreflexive(a.drop_first());
    }
}

pub proof fn lemma_lt_asymmetric(a: Seq<char>, b: Seq<char>)
    ensures
        seq_lt(a, b) ==> !seq_lt(b, a),
    decreases a.len(),
{
    if a.len() > 0 && b.len() > 0 && a[0] == b[0] {
        lemma_lt_asymmetric(a.drop_first(), b.drop_first());
    }
}

pub proof fn lemma_lt_transitive(a: Seq<char>, b: Seq<char>, c: Seq<char>)
    ensures
        seq_lt(a, b) && seq_lt(b, c) ==> seq_lt(a, c),
    decreases a.len(),
{
    if a.len() > 0 && b.len() > 0 && c.len() > 0 {
        lemma_lt_transitive(a.drop_first(), b.drop_first(), c.drop_first());
    }
}

pub proof fn lemma_lt_total(a: Seq<char>, b: Seq<char>)
    ensures
        a != b ==> seq_lt(a, b) || seq_lt(b, a),
    decreases a.len(),
{
    if a.len() == 0 && b.len() == 0 {
        assert(a =~= b);
    } else if a.len() > 0 && b.len() > 0 && a[0] == b[0] {
        lemma_lt_total(a.drop_first(), b.drop_first());
        if a.drop_first() == b.drop_first() {
            assert(a =~= seq![a[0]] + a.drop_first());
            assert(b =~= seq![b[0]] + b.drop_first());
        }
    }
}

/// Strictly increasing in `seq_lt`: sorted, with nothing twice.
pub open spec fn strictly_sorted(s: Seq<Seq<char>>) -> bool {
    forall|i: int, j: int| 0 <= i < j < s.len() ==> seq_lt(#[trigger] s[i], #[trigger] s[j])
}

/// `s` lists exactly the members of `set`.
pub open spec fn lists(s: Seq<Seq<char>>, set: Set<Seq<char>>) -> bool {
    forall|x: Seq<char>| #![trigger s.contains(x)] #![trigger set.contains(x)]
        s.contains(x) <==> set.contains(x)
}

/// The members of a finite set of names, in increasing order.
pub open spec fn sorted_names(set: Set<Seq<char>>) -> Seq<Seq<char>> {
    choose|s: Seq<Seq<char>>| strictly_sorted(s) && lists(s, set)
}

/// Two strictly sorted sequences with the same members are equal.
pub proof fn lemma_sorted_unique(p: Seq<Seq<char>>, q: Seq<Seq<char>>)
    requires
        strictly_sorted(p),
        strictly_sorted(q),
        forall|x: Seq<char>| #![trigger p.contains(x)] #![trigger q.contains(x)]
            p.contains(x) <==> q.contains(x),
    ensures
        p == q,
    decreases p.len(),
{
    if p.len() == 0 {
        if q.len() > 0 {
            assert(q.contains(q[0]));
        }
        assert(p =~= q);
    } else {
        assert(p.contains(p[0]));
        assert(q.contains(q[0]));
        let i = choose|i: int| 0 <= i < q.len() && q[i] == p[0];
        let j = choose|j: int| 0 <= j < p.len() && p[j] == q[0];
        if i > 0 {
            // q[0] < q[i] = p[0], but p[0] <= p[j] = q[0]
            if j > 0 {
                lemma_lt_asymmetric(q[0], p[0]);
            } else {
                lemma_lt_irreflexive(q[0]);
            }
        }
        assert(q.len() > 0);
        assert(p[0] == q[0]);
        let p1 = p.drop_first();
        let q1 = q.drop_first();
        assert forall|x: Seq<char>| #![trigger p1.contains(x)] #![trigger q1.contains(x)]
            p1.contains(x) <==> q1.contains(x) by {
            if p1.contains(x) {
                let k = choose|k: int| 0 <= k < p1.len() && p1[k] == x;
                assert(p[k + 1] == x);
                assert(seq_lt(p[0], p[k + 1]));
                lemma_lt_irreflexive(x);
                assert(q.contains(x));
                let m = choose|m: int| 0 <= m < q.len() && q[m] == x;
                assert(m != 0);
                assert(q1[m - 1] == x);
            }
            if q1.contains(x) {
                let k = choose|k: int| 0 <= k < q1.len() && q1[k] == x;
                assert(q[k + 1] == x);
                assert(seq_lt(q[0], q[k + 1]));
                lemma_lt_irreflexive(x);
                assert(p.contains(x));
                let m = choose|m: int| 0 <= m < p.len() && p[m] == x;
                assert(m != 0);
                assert(p1[m - 1] == x);
            }
        }
        lemma_sorted_unique(p1, q1);
        assert(p =~= seq![p[0]] + p1);
        assert(q =~= seq![q[0]] + q1);
    }
}

/// A strictly sorted listing of a set is the one `sorted_names` picks.
pub proof fn lemma_sorted_names(s: Seq<Seq<char>>, set: Set<Seq<char>>)
    requires
        strictly_sorted(s),
        lists(s, set),
    ensures
        sorted_names(set) == s,
{
    let t = sorted_names(set);
    assert(strictly_sorted(t) && lists(t, set));
    assert forall|x: Seq<char>| #![trigger t.contains(x)] #![trigger s.contains(x)]
        t.contains(x) <==> s.contains(x) by {
        if t.contains(x) {
            assert(set.contains(x));
        }
        if s.contains(x) {
            assert(set.contains(x));
        }
    }
    lemma_sorted_unique(t, s);
}

/// `x` placed before the first member of `l` it comes before.
pub open spec fn insert_sorted(l: Seq<Seq<char>>, x: Seq<char>) -> Seq<Seq<char>>
    decreases l.len(),
{
    if l.len() == 0 {
        seq![x]
    } else if seq_lt(x, l[0]) {
        seq![x] + l
    } else {
        seq![l[0]] + insert_sorted(l.drop_first(), x)
    }
}

pub proof fn lemma_insert_sorted(l: Seq<Seq<char>>, x: Seq<char>)
    requires
        strictly_sorted(l),
        !l.contains(x),
    ensures
        strictly_sorted(insert_sorted(l, x)),
        forall|y: Seq<char>| #[trigger]
            insert_sorted(l, x).contains(y) <==> (l.contains(y) || y == x),
    decreases l.len(),
{
    let r = insert_sorted(l, x);
    if l.len() == 0 {
        assert forall|y: Seq<char>| #[trigger] r.contains(y) <==> (l.contains(y) || y == x) by {
            if r.contains(y) {
                assert(r[0] == y);
            }
            if y == x {
                assert(r[0] == x);
            }
        }
    } else if seq_lt(x, l[0]) {
        assert forall|i: int, j: int| 0 <= i < j < r.len() implies seq_lt(
            #[trigger] r[i],
            #[trigger] r[j],
        ) by {
            if i == 0 {
                if j > 1 {
                    lemma_lt_transitive(x, l[0], l[j - 1]);
                }
            } else {
                assert(r[i] == l[i - 1] && r[j] == l[j - 1]);
            }
        }
        assert forall|y: Seq<char>| #[trigger] r.contains(y) <==> (l.contains(y) || y == x) by {
            if r.contains(y) {
                let k = choose|k: int| 0 <= k < r.len() && r[k] == y;
                if k > 0 {
                    assert(l[k - 1] == y);
                }
            }
            if l.contains(y) {
                let k = choose|k: int| 0 <= k < l.len() && l[k] == y;
                assert(r[k + 1] == y);
            }
            if y == x {
                assert(r[0] == x);
            }
        }
    } else {
        let t = l.drop_first();
        assert(l[0] != x) by {
            assert(l.contains(l[0]));
        }
        lemma_lt_total(x, l[0]);
        assert(strictly_sorted(t)) by {
            assert forall|i: int, j: int| 0 <= i < j < t.len() implies seq_lt(
                #[trigger] t[i],
                #[trigger] t[j],
            ) by {
                assert(t[i] == l[i + 1] && t[j] == l[j + 1]);
            }
        }
        assert(!t.contains(x)) by {
            if t.contains(x) {
                let k = choose|k: int| 0 <= k < t.len() && t[k] == x;
                assert(l[k + 1] == x);
            }
        }
        lemma_insert_sorted(t, x);
        let q = insert_sorted(t, x);
        assert(r == seq![l[0]] + q);
        assert forall|i: int, j: int| 0 <= i < j < r.len() implies seq_lt(
            #[trigger] r[i],
            #[trigger] r[j],
        ) by {
            if i == 0 {
                assert(r[j] == q[j - 1]);
                assert(q.contains(q[j - 1]));
                if q[j - 1] != x {
                    let m = choose|m: int| 0 <= m < t.len() && t[m] == q[j - 1];
                    assert(l[m + 1] == q[j - 1]);
                }
            } else {
                assert(r[i] == q[i - 1] && r[j] == q[j - 1]);
            }
        }
        assert forall|y: Seq<char>| #[trigger] r.contains(y) <==> (l.contains(y) || y == x) by {
            if r.contains(y) {
                let k = choose|k: int| 0 <= k < r.len() && r[k] == y;
                if k > 0 {
                    assert(q[k - 1] == y);
                    assert(q.contains(y));
                    if y != x {
                        let m = choose|m: int| 0 <= m < t.len() && t[m] == y;
                        assert(l[m + 1] == y);
                    }
                }
            }
            if l.contains(y) {
                let k = choose|k: int| 0 <= k < l.len() && l[k] == y;
                if k > 0 {
                    assert(t[k - 1] == y);
                    assert(t.contains(y));
                    assert(q.contains(y));
                    let m = choose|m: int| 0 <= m < q.len() && q[m] == y;
                    assert(r[m + 1] == y);
                }
            }
            if y == x {
                assert(q.contains(x));
                let m = choose|m: int| 0 <= m < q.len() && q[m] == x;
                assert(r[m + 1] == x);
            }
        }
    }
}

/// A finite set of names has a strictly sorted listing, which is the one
/// `sorted_names` picks.
pub proof fn lemma_sorted_names_exist(set: Set<Seq<char>>)
    requires
        set.finite(),
    ensures
        strictly_sorted(sorted_names(set)),
        lists(sorted_names(set), set),
    decreases set.len(),
{
    if set.len() == 0 {
        let e = Seq::<Seq<char>>::empty();
        assert forall|x: Seq<char>| #![trigger e.contains(x)] #![trigger set.contains(x)]
            e.contains(x) <==> set.contains(x) by {
            if set.contains(x) {
                assert(set.remove(x).len() < set.len());
            }
        }
        lemma_sorted_names(e, set);
    } else {
        let x = set.choose();
        let rest = set.remove(x);
        lemma_sorted_names_exist(rest);
        let l = sorted_names(rest);
        assert(!l.contains(x));
        lemma_insert_sorted(l, x);
        let s = insert_sorted(l, x);
        assert forall|y: Seq<char>| #![trigger s.contains(y)] #![trigger set.contains(y)]
            s.contains(y) <==> set.contains(y) by {
            if s.contains(y) && y != x {
                assert(l.contains(y));
                assert(rest.contains(y));
            }
            if set.contains(y) && y != x {
                assert(rest.contains(y));
                assert(l.contains(y));
            }
        }
        lemma_sorted_names(s, set);
    }
}

/// `sep` placed between consecutive members of `list`.
pub open spec fn seq_join(list: Seq<Seq<char>>, sep: Seq<char>) -> Seq<char>
    decreases list.len(),
{
    if list.len() == 0 {
        Seq::empty()
    } else if list.len() == 1 {
        list[0]
    } else {
        seq_join(list.drop_last(), sep) + sep + list.last()
    }
}

/// Every non-overlapping occurrence of `pat`, found from the left, replaced
/// by `rep`.
pub open spec fn replaced(s: Seq<char>, pat: Seq<char>, rep: Seq<char>) -> Seq<char>
    decreases s.len(),
{
    if s.len() == 0 {
        Seq::empty()
    } else if 0 < pat.len() <= s.len() && s.take(pat.len() as int) == pat {
        rep + replaced(s.skip(pat.len() as int), pat, rep)
    } else {
        seq![s[0]] + replaced(s.drop_first(), pat, rep)
    }
}

/// ASCII upper-case letters mapped to lower case, everything else kept.
pub open spec fn lower_char(c: char) -> char {
    if 'A' <= c && c <= 'Z' {
        ((c as u32) + 32) as char
    } else {
        c
    }
}

pub open spec fn lowered(s: Seq<char>) -> Seq<char> {
    s.map_values(|c: char| lower_char(c))
}

pub open spec fn digit(d: nat) -> char {
    ((d % 10) + 48) as char
}

/// The decimal digits of `n`, most significant first.
pub open spec fn decimal(n: nat) -> Seq<char>
    decreases n,
{
    if n < 10 {
        seq![digit(n)]
    } else {
        decimal(n / 10) + seq![digit(n % 10)]
    }
}

/// Appends one character to a string, as `String::push` documents it.
#[verifier::external_body]
fn push_char(s: &mut String, c: char)
    ensures
        final(s)@ == old(s)@.push(c),
{
    s.push(c);
}

/// The characters of a string.
pub fn chars_of(s: &str) -> (v: Vec<char>)
    ensures
        v@ == s@,
{
    let mut v: Vec<char> = Vec::new();
    for c in it: s.chars()
        invariant
            v@ == it.seq().take(it.index() as int),
    {
        v.push(c);
    }
    v
}

/// A string made of the given characters.
pub fn string_of(v: &Vec<char>) -> (s: String)
    ensures
        s@ == v@,
{
    let mut s = String::new();
    let mut i: usize = 0;
    while i < v.len()
        invariant
            0 <= i <= v.len(),
            s@ == v@.take(i as int),
        decreases v.len() - i,
    {
        push_char(&mut s, v[i]);
        i += 1;
        assert(v@.take(i as int) =~= v@.take((i - 1) as int).push(v@[i - 1]));
    }
    assert(v@.take(v.len() as int) =~= v@);
    s
}

/// A fresh string with the characters of `s`.
pub fn owned(s: &str) -> (r: String)
    ensures
        r@ == s@,
{
    String::from_str(s)
}

/// Whether two strings hold the same characters.
pub fn same(a: &str, b: &str) -> (r: bool)
    ensures
        r == (a@ == b@),
{
    let va = chars_of(a);
    let vb = chars_of(b);
    if va.len() != vb.len() {
        return false;
    }
    let mut i: usize = 0;
    while i < va.len()
        invariant
            va@ == a@,
            vb@ == b@,
            va.len() == vb.len(),
            0 <= i <= va.len(),
            forall|j: int| 0 <= j < i ==> va@[j] == vb@[j],
        decreases va.len() - i,
    {
        if va[i] != vb[i] {
            assert(va@[i as int] != vb@[i as int]);
            return false;
        }
        i += 1;
    }
    assert(va@ =~= vb@);
    true
}

proof fn lemma_lt_skip(a: Seq<char>, b: Seq<char>, i: int)
    requires
        0 <= i < a.len(),
        i < b.len(),
        a[i] == b[i],
    ensures
        seq_lt(a.skip(i), b.skip(i)) == seq_lt(a.skip(i + 1), b.skip(i + 1)),
{
    assert(a.skip(i).drop_first() =~= a.skip(i + 1));
    assert(b.skip(i).drop_first() =~= b.skip(i + 1));
}

/// Whether `a` comes strictly before `b` in `seq_lt`.
pub fn lt(a: &str, b: &str) -> (r: bool)
    ensures
        r == seq_lt(a@, b@),
{
    let va = chars_of(a);
    let vb = chars_of(b);
    let mut i: usize = 0;
    assert(va@.skip(0) =~= va@);
    assert(vb@.skip(0) =~= vb@);
    while i < va.len() && i < vb.len()
        invariant
            va@ == a@,
            vb@ == b@,
            0 <= i <= va.len(),
            i <= vb.len(),
            seq_lt(va@, vb@) == seq_lt(va@.skip(i as int), vb@.skip(i as int)),
        decreases va.len() - i,
    {
        if va[i] != vb[i] {
            return va[i] < vb[i];
        }
        proof {
            lemma_lt_skip(va@, vb@, i as int);
        }
        i += 1;
    }
    i == va.len() && i < vb.len()
}

/// Whether `prefix` begins `s`.
pub fn starts_with(s: &str, prefix: &str) -> (r: bool)
    ensures
        r == (prefix@.len() <= s@.len() && s@.take(prefix@.len() as int) == prefix@),
{
    let vs = chars_of(s);
    let vp = chars_of(prefix);
    if vp.len() > vs.len() {
        assert(prefix@.len() > s@.len());
        return false;
    }
    let mut i: usize = 0;
    while i < vp.len()
        invariant
            vs@ == s@,
            vp@ == prefix@,
            vp.len() <= vs.len(),
            0 <= i <= vp.len(),
            forall|j: int| 0 <= j < i ==> vs@[j] == vp@[j],
        decreases vp.len() - i,
    {
        if vs[i] != vp[i] {
            assert(vs@.take(vp@.len() as int)[i as int] != vp@[i as int]);
            return false;
        }
        i += 1;
    }
    assert(vs@.take(vp@.len() as int) =~= vp@);
    true
}

/// The decimal digits of `n`.
pub fn decimal_string(n: usize) -> (s: String)
    ensures
        s@ == decimal(n as nat),
    decreases n,
{
    let d: u8 = (n % 10) as u8;
    let c: char = (48u8 + d) as char;
    assert(c == digit(n as nat));
    if n < 10 {
        let mut s = String::new();
        push_char(&mut s, c);
        assert(s@ =~= seq![digit(n as nat)]);
        s
    } else {
        let mut s = decimal_string(n / 10);
        push_char(&mut s, c);
        assert(digit(n as nat) == digit((n % 10) as nat));
        s
    }
}

/// `s` with every ASCII upper-case letter lowered.
pub fn lower_ascii(s: &str) -> (r: String)
    ensures
        r@ == lowered(s@),
{
    let v = chars_of(s);
    let mut out = String::new();
    let mut i: usize = 0;
    while i < v.len()
        invariant
            0 <= i <= v.len(),
            out@ == lowered(v@.take(i as int)),
        decreases v.len() - i,
    {
        let c = v[i];
        let l: char = if 'A' <= c && c <= 'Z' {
            ((c as u8) + 32) as char
        } else {
            c
        };
        assert(l == lower_char(c));
        push_char(&mut out, l);
        i += 1;
        assert(lowered(v@.take(i as int)) =~= lowered(v@.take((i - 1) as int)).push(l));
    }
    assert(v@.take(v.len() as int) =~= v@);
    out
}

proof fn lemma_replaced_step(s: Seq<char>, pat: Seq<char>, rep: Seq<char>, i: int)
    requires
        0 <= i < s.len(),
    ensures
        (0 < pat.len() <= s.len() - i && s.skip(i).take(pat.len() as int) == pat) ==> replaced(
            s.skip(i),
            pat,
            rep,
        ) == rep + replaced(s.skip(i + pat.len()), pat, rep),
        !(0 < pat.len() <= s.len() - i && s.skip(i).take(pat.len() as int) == pat) ==> replaced(
            s.skip(i),
            pat,
            rep,
        ) == seq![s[i]] + replaced(s.skip(i + 1), pat, rep),
{
    if i + pat.len() <= s.len() {
        assert(s.skip(i).skip(pat.len() as int) =~= s.skip(i + pat.len()));
    }
    assert(s.skip(i).drop_first() =~= s.skip(i + 1));
}

/// Whether `pat` occurs in `s` starting at position `i`.
fn matches_at(s: &Vec<char>, pat: &Vec<char>, i: usize) -> (r: bool)
    requires
        i <= s.len(),
    ensures
        r == (pat@.len() <= s@.len() - i && s@.skip(i as int).take(pat@.len() as int) == pat@),
{
    if pat.len() > s.len() - i {
        return false;
    }
    let mut k: usize = 0;
    while k < pat.len()
        invariant
            pat.len() <= s.len() - i,
            0 <= k <= pat.len(),
            forall|j: int| 0 <= j < k ==> s@[i + j] == pat@[j],
        decreases pat.len() - k,
    {
        if s[i + k] != pat[k] {
            assert(s@.skip(i as int).take(pat@.len() as int)[k as int] != pat@[k as int]);
            return false;
        }
        k += 1;
    }
    assert(s@.skip(i as int).take(pat@.len() as int) =~= pat@);
    true
}

/// `s` with every non-overlapping occurrence of `pat` replaced by `rep`.
pub fn replace(s: &str, pat: &str, rep: &str) -> (r: String)
    requires
        pat@.len() > 0,
    ensures
        r@ == replaced(s@, pat@, rep@),
{
    let v = chars_of(s);
    let p = chars_of(pat);
    let mut out = String::new();
    let mut i: usize = 0;
    assert(v@.skip(0) =~= v@);
    while i < v.len()
        invariant
            0 <= i <= v.len(),
            p@ == pat@,
            p@.len() > 0,
            out@ + replaced(v@.skip(i as int), p@, rep@) == replaced(v@, p@, rep@),
        decreases v.len() - i,
    {
        proof {
            lemma_replaced_step(v@, p@, rep@, i as int);
        }
        if matches_at(&v, &p, i) {
            out.append(rep);
            proof {
                assert(out@ + replaced(v@.skip(i + p@.len()), p@, rep@) =~= replaced(v@, p@, rep@));
            }
            i = i + p.len();
        } else {
            let ghost before = out@;
            push_char(&mut out, v[i]);
            proof {
                assert(out@ + replaced(v@.skip(i + 1), p@, rep@) =~= before + (seq![v@[i as int]]
                    + replaced(v@.skip(i + 1), p@, rep@)));
            }
            i = i + 1;
        }
    }
    assert(v@.skip(v.len() as int) =~= Seq::<char>::empty());
    assert(out@ =~= replaced(v@, p@, rep@));
    out
}

/// The strings of `list` with `sep` between consecutive ones.
pub fn join(list: &Vec<String>, sep: &str) -> (r: String)
    ensures
        r@ == seq_join(views(list@), sep@),
{
    let mut out = String::new();
    let mut i: usize = 0;
    while i < list.len()
        invariant
            0 <= i <= list.len(),
            out@ == seq_join(views(list@).take(i as int), sep@),
        decreases list.len() - i,
    {
        if i != 0 {
            out.append(sep);
        }
        out.append(list[i].as_str());
        proof {
            let t = views(list@).take((i + 1) as int);
            assert(t.drop_last() =~= views(list@).take(i as int));
            if i == 0 {
                assert(views(list@).take(0) =~= Seq::<Seq<char>>::empty());
                assert(out@ =~= t[0]);
            }
        }
        i += 1;
    }
    assert(views(list@).take(list.len() as int) =~= views(list@));
    out
}

/// Inserts `name` into a strictly sorted list of names, unless it is
/// already there.
pub fn insert_name(v: &mut Vec<String>, name: &String)
    requires
        strictly_sorted(views(old(v)@)),
    ensures
        strictly_sorted(views(final(v)@)),
        forall|x: Seq<char>| #[trigger]
            views(final(v)@).contains(x) <==> (views(old(v)@).contains(x) || x == name@),
{
    let ghost old_v = views(v@);
    let mut p: usize = 0;
    while p < v.len() && lt(v[p].as_str(), name.as_str())
        invariant
            0 <= p <= v.len(),
            views(v@) == old_v,
            forall|j: int| 0 <= j < p ==> seq_lt(#[trigger] old_v[j], name@),
        decreases v.len() - p,
    {
        p += 1;
    }
    if p < v.len() && v[p] == *name {
        assert(old_v[p as int] == name@);
        assert(old_v.contains(name@));
        return;
    }
    proof {
        if p < v.len() {
            lemma_lt_total(old_v[p as int], name@);
        }
    }
    v.insert(p, name.clone());
    proof {
        let nv = views(v@);
        assert(nv =~= old_v.take(p as int).push(name@) + old_v.skip(p as int));
        assert forall|i: int, j: int| 0 <= i < j < nv.len() implies seq_lt(
            #[trigger] nv[i],
            #[trigger] nv[j],
        ) by {
            if j < p {
            } else if j == p {
            } else if i < p {
                lemma_lt_transitive(old_v[i], name@, old_v[p as int]);
                if j - 1 > p {
                    lemma_lt_transitive(old_v[i], old_v[p as int], old_v[j - 1]);
                }
            } else if i == p {
                if j - 1 > p {
                    lemma_lt_transitive(name@, old_v[p as int], old_v[j - 1]);
                }
            } else {
            }
        }
        assert forall|x: Seq<char>| #[trigger] nv.contains(x) <==> (old_v.contains(x) || x
            == name@) by {
            if nv.contains(x) {
                let k = choose|k: int| 0 <= k < nv.len() && nv[k] == x;
                if k < p {
                    assert(old_v[k] == x);
                } else if k > p {
                    assert(old_v[k - 1] == x);
                }
            }
            if old_v.contains(x) {
                let k = choose|k: int| 0 <= k < old_v.len() && old_v[k] == x;
                if k < p {
                    assert(nv[k] == x);
                } else {
                    assert(nv[k + 1] == x);
                }
            }
            if x == name@ {
                assert(nv[p as int] == x);
            }
        }
    }
}


/// Two sequences, each strictly increasing in the same strict order, with
/// the same members, are equal.
pub proof fn lemma_sorted_unique_by<T>(p: Seq<T>, q: Seq<T>, less: spec_fn(T, T) -> bool)
    requires
        forall|x: T| !#[trigger] less(x, x),
        forall|x: T, y: T, z: T| #[trigger] less(x, y) && #[trigger] less(y, z) ==> less(x, z),
        forall|x: T, y: T|
            p.contains(x) && p.contains(y) && x != y ==> #[trigger] less(x, y) || #[trigger] less(
                y,
                x,
            ),
        forall|i: int, j: int| 0 <= i < j < p.len() ==> less(#[trigger] p[i], #[trigger] p[j]),
        forall|i: int, j: int| 0 <= i < j < q.len() ==> less(#[trigger] q[i], #[trigger] q[j]),
        forall|x: T| #![trigger p.contains(x)] #![trigger q.contains(x)]
            p.contains(x) <==> q.contains(x),
    ensures
        p == q,
    decreases p.len(),
{
    if p.len() == 0 {
        if q.len() > 0 {
            assert(q.contains(q[0]));
        }
        assert(p =~= q);
    } else {
        assert(p.contains(p[0]));
        assert(q.contains(q[0]));
        let i = choose|i: int| 0 <= i < q.len() && q[i] == p[0];
        let j = choose|j: int| 0 <= j < p.len() && p[j] == q[0];
        if p[0] != q[0] {
            assert(i > 0 && j > 0);
            assert(less(q[0], q[i]));
            assert(less(p[0], p[j]));
            assert(less(q[0], q[0]));
        }
        let p1 = p.drop_first();
        let q1 = q.drop_first();
        assert forall|x: T| #![trigger p1.contains(x)] #![trigger q1.contains(x)]
            p1.contains(x) <==> q1.contains(x) by {
            if p1.contains(x) {
                let k = choose|k: int| 0 <= k < p1.len() && p1[k] == x;
                assert(p[k + 1] == x);
                assert(less(p[0], p[k + 1]));
                assert(q.contains(x));
                let m = choose|m: int| 0 <= m < q.len() && q[m] == x;
                assert(m != 0);
                assert(q1[m - 1] == x);
            }
            if q1.contains(x) {
                let k = choose|k: int| 0 <= k < q1.len() && q1[k] == x;
                assert(q[k + 1] == x);
                assert(less(q[0], q[k + 1]));
                assert(p.contains(x));
                let m = choose|m: int| 0 <= m < p.len() && p[m] == x;
                assert(m != 0);
                assert(p1[m - 1] == x);
            }
        }
        assert forall|x: T, y: T|
            p1.contains(x) && p1.contains(y) && x != y implies #[trigger] less(x, y)
            || #[trigger] less(y, x) by {
            let k = choose|k: int| 0 <= k < p1.len() && p1[k] == x;
            let m = choose|m: int| 0 <= m < p1.len() && p1[m] == y;
            assert(p[k + 1] == x && p[m + 1] == y);
            assert(p.contains(x) && p.contains(y));
        }
        lemma_sorted_unique_by(p1, q1, less);
        assert(p =~= seq![p[0]] + p1);
        assert(q =~= seq![q[0]] + q1);
    }
}

} // verus!
