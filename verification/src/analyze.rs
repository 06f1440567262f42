//! Classification, conflict-graph construction, and remediation.
//!
//! Every rule here traces to CAP-0063: two transactions land in the same
//! sequential cluster when their declared footprints share a ledger entry and
//! at least one of them writes it.
use vstd::prelude::*;
use crate::model::{
    Access, ConflictEdge, ConflictEdgeView, Durability, Finding, FindingView, KeyClass,
    KeyClassView, Report, ReportView, Severity, StorageAccess, StorageAccessView, Summary,
    SCHEMA_VERSION,
};
use crate::parse::{
    admin_name, ArgOrigin, ArgOriginView, FunctionInfo, FunctionInfoView, LetBindingView, RawAccess,
    RawAccessView, ScanResult, ScanResultView,
};
use crate::text::{
    decimal, decimal_string, insert_name, join, lemma_lt_asymmetric, lemma_lt_irreflexive,
    lemma_lt_total, lemma_lt_transitive, lemma_sorted_names, lists, lt, owned, seq_join, seq_lt,
    sorted_names, strictly_sorted, views,
};

verus! {

/// Everything under `instance()` lives in one ledger entry, the contract
/// instance, however many keys are put in it.
pub const INSTANCE_DOMAIN: &'static str = "<contract instance>";

/// The ledger entry an access actually touches, which is what conflicts.
pub open spec fn domain_of(d: Durability, key_root: Seq<char>) -> Seq<char> {
    if d == Durability::Instance {
        INSTANCE_DOMAIN@
    } else {
        key_root
    }
}

pub fn conflict_domain(durability: Durability, key_root: &String) -> (r: String)
    ensures
        r@ == domain_of(durability, key_root@),
{
    match durability {
        Durability::Instance => owned(INSTANCE_DOMAIN),
        _ => key_root.clone(),
    }
}

/// Whether two different callers reaching an access land on the same entry:
/// always in instance storage, and elsewhere unless the key is derived from
/// the caller's own input.
pub open spec fn shared(d: Durability, class: KeyClassView) -> bool {
    d == Durability::Instance || !(class is SubjectDerived)
}

pub fn is_shared_domain(durability: Durability, class: &KeyClass) -> (r: bool)
    ensures
        r == shared(durability, class@),
{
    if durability == Durability::Instance {
        return true;
    }
    !matches!(class, KeyClass::SubjectDerived { .. })
}

/// A function that can only ever run once, so it cannot race anything.
pub open spec fn runs_once_name(n: Seq<char>) -> bool {
    n == "__constructor"@ || n == "initialize"@ || n == "init"@
}

pub fn runs_once(name: &str) -> (r: bool)
    ensures
        r == runs_once_name(name@),
{
    crate::text::same(name, "__constructor") || crate::text::same(name, "initialize")
        || crate::text::same(name, "init")
}

// ----- counters -----------------------------------------------------------

/// The key roots that `f` reaches with a parameterless key, by access kind.
pub open spec fn static_keys(f: FunctionInfoView, acc: Access) -> Set<Seq<char>> {
    Set::new(
        |r: Seq<char>|
            exists|i: int|
                0 <= i < f.accesses.len() && (#[trigger] f.accesses[i]).key_args.len() == 0
                    && f.accesses[i].access == acc && f.accesses[i].key_root == r,
    )
}

/// The counter a function mints from: the least key root, in `seq_lt`, that
/// it both reads and writes through a parameterless key.
pub open spec fn counter_key(f: FunctionInfoView) -> Option<Seq<char>> {
    let both = static_keys(f, Access::Read).intersect(static_keys(f, Access::Write));
    if exists|r: Seq<char>| both.contains(r) {
        Some(
            choose|r: Seq<char>|
                both.contains(r) && forall|x: Seq<char>| both.contains(x) ==> !seq_lt(x, r),
        )
    } else {
        None
    }
}

/// The counter minted by the function called `name`; among several of that
/// name, the last one that has a counter.
pub open spec fn counter_of_call(fns: Seq<FunctionInfoView>, name: Seq<char>) -> Option<
    Seq<char>,
>
    decreases fns.len(),
{
    if fns.len() == 0 {
        None
    } else if fns.last().name == name && counter_key(fns.last()) is Some {
        counter_key(fns.last())
    } else {
        counter_of_call(fns.drop_last(), name)
    }
}

/// The parameterless key roots `f` accesses with `acc`, in increasing order.
fn static_key_list(f: &FunctionInfo, acc: Access) -> (v: Vec<String>)
    ensures
        strictly_sorted(views(v@)),
        lists(views(v@), static_keys(f@, acc)),
{
    let mut v: Vec<String> = Vec::new();
    let mut i: usize = 0;
    while i < f.accesses.len()
        invariant
            0 <= i <= f.accesses.len(),
            strictly_sorted(views(v@)),
            forall|r: Seq<char>| #[trigger]
                views(v@).contains(r) <==> exists|k: int|
                    0 <= k < i && (#[trigger] f@.accesses[k]).key_args.len() == 0
                        && f@.accesses[k].access == acc && f@.accesses[k].key_root == r,
        decreases f.accesses.len() - i,
    {
        let a = &f.accesses[i];
        proof {
            assert(f@.accesses[i as int] == a@);
        }
        if a.key_args.len() == 0 && a.access == acc {
            insert_name(&mut v, &a.key_root);
        }
        proof {
            assert forall|r: Seq<char>| #[trigger]
                views(v@).contains(r) <==> exists|k: int|
                    0 <= k < i + 1 && (#[trigger] f@.accesses[k]).key_args.len() == 0
                        && f@.accesses[k].access == acc && f@.accesses[k].key_root == r by {
                if views(v@).contains(r) && !(exists|k: int|
                    0 <= k < i && (#[trigger] f@.accesses[k]).key_args.len() == 0
                        && f@.accesses[k].access == acc && f@.accesses[k].key_root == r) {
                    assert(r == a@.key_root);
                }
            }
        }
        i += 1;
    }
    proof {
        assert forall|r: Seq<char>| #![trigger views(v@).contains(r)]
            #![trigger static_keys(f@, acc).contains(r)]
            views(v@).contains(r) <==> static_keys(f@, acc).contains(r) by {}
    }
    v
}

/// The counter a function mints from, if it has one.
fn find_counter(f: &FunctionInfo) -> (r: Option<String>)
    ensures
        opt_seq(r) == counter_key(f@),
{
    let reads = static_key_list(f, Access::Read);
    let writes = static_key_list(f, Access::Write);
    let ghost both = static_keys(f@, Access::Read).intersect(static_keys(f@, Access::Write));
    let mut k: usize = 0;
    while k < reads.len()
        invariant
            0 <= k <= reads.len(),
            strictly_sorted(views(reads@)),
            lists(views(reads@), static_keys(f@, Access::Read)),
            lists(views(writes@), static_keys(f@, Access::Write)),
            both == static_keys(f@, Access::Read).intersect(static_keys(f@, Access::Write)),
            forall|j: int| 0 <= j < k ==> !both.contains(#[trigger] views(reads@)[j]),
        decreases reads.len() - k,
    {
        if contains_name(&writes, &reads[k]) {
            let r = reads[k].clone();
            proof {
                let rv = views(reads@)[k as int];
                assert(views(reads@).contains(rv));
                assert(both.contains(rv));
                assert forall|x: Seq<char>| both.contains(x) implies !seq_lt(x, rv) by {
                    assert(views(reads@).contains(x));
                    let j = choose|j: int| 0 <= j < views(reads@).len() && views(reads@)[j] == x;
                    if j < k {
                    } else if j == k {
                        lemma_lt_irreflexive(x);
                    } else {
                        lemma_lt_asymmetric(rv, x);
                    }
                }
                let c = choose|c: Seq<char>|
                    both.contains(c) && forall|x: Seq<char>| both.contains(x) ==> !seq_lt(x, c);
                assert(both.contains(c) && forall|x: Seq<char>| both.contains(x) ==> !seq_lt(x, c));
                assert(!seq_lt(rv, c));
                assert(!seq_lt(c, rv));
                lemma_lt_total(rv, c);
            }
            return Some(r);
        }
        k += 1;
    }
    proof {
        assert forall|r: Seq<char>| !both.contains(r) by {
            if both.contains(r) {
                assert(views(reads@).contains(r));
            }
        }
    }
    None
}

pub open spec fn opt_seq(o: Option<String>) -> Option<Seq<char>> {
    match o {
        Some(s) => Some(s@),
        None => None,
    }
}

/// Whether `v` holds a string equal to `name`.
pub fn contains_name(v: &Vec<String>, name: &String) -> (r: bool)
    ensures
        r == views(v@).contains(name@),
{
    let mut i: usize = 0;
    while i < v.len()
        invariant
            0 <= i <= v.len(),
            forall|j: int| 0 <= j < i ==> views(v@)[j] != name@,
        decreases v.len() - i,
    {
        if v[i] == *name {
            assert(views(v@)[i as int] == name@);
            return true;
        }
        i += 1;
    }
    false
}

/// Each function that mints from a counter, with that counter, in order.
pub open spec fn counter_table(fns: Seq<FunctionInfoView>) -> Seq<(Seq<char>, Seq<char>)>
    decreases fns.len(),
{
    if fns.len() == 0 {
        Seq::empty()
    } else {
        match counter_key(fns.last()) {
            Some(c) => counter_table(fns.drop_last()).push((fns.last().name, c)),
            None => counter_table(fns.drop_last()),
        }
    }
}

/// The last entry for `name` in a counter table.
pub open spec fn table_lookup(t: Seq<(Seq<char>, Seq<char>)>, name: Seq<char>) -> Option<
    Seq<char>,
>
    decreases t.len(),
{
    if t.len() == 0 {
        None
    } else if t.last().0 == name {
        Some(t.last().1)
    } else {
        table_lookup(t.drop_last(), name)
    }
}

proof fn lemma_counter_table(fns: Seq<FunctionInfoView>, name: Seq<char>)
    ensures
        table_lookup(counter_table(fns), name) == counter_of_call(fns, name),
    decreases fns.len(),
{
    if fns.len() > 0 {
        lemma_counter_table(fns.drop_last(), name);
        match counter_key(fns.last()) {
            Some(c) => {
                let t = counter_table(fns);
                assert(t.drop_last() =~= counter_table(fns.drop_last()));
                assert(t.last() == (fns.last().name, c));
            },
            None => {},
        }
    }
}

pub open spec fn pair_views(v: Seq<(String, String)>) -> Seq<(Seq<char>, Seq<char>)> {
    v.map_values(|p: (String, String)| (p.0@, p.1@))
}

/// A function that reads and writes the same parameterless key is minting
/// values from a shared counter; anything derived from what it returns
/// inherits that.
fn find_counter_functions(functions: &Vec<FunctionInfo>) -> (out: Vec<(String, String)>)
    ensures
        pair_views(out@) == counter_table(functions@.map_values(|f: FunctionInfo| f@)),
{
    let ghost fv = functions@.map_values(|f: FunctionInfo| f@);
    let mut out: Vec<(String, String)> = Vec::new();
    let mut i: usize = 0;
    while i < functions.len()
        invariant
            0 <= i <= functions.len(),
            fv == functions@.map_values(|f: FunctionInfo| f@),
            pair_views(out@) == counter_table(fv.take(i as int)),
        decreases functions.len() - i,
    {
        let f = &functions[i];
        let c = find_counter(f);
        proof {
            assert(fv.take((i + 1) as int).drop_last() =~= fv.take(i as int));
            assert(fv.take((i + 1) as int).last() == f@);
        }
        match c {
            Some(k) => {
                out.push((f.name.clone(), k));
                proof {
                    assert(pair_views(out@) =~= counter_table(fv.take(i as int)).push(
                        (f@.name, counter_key(f@)->0),
                    ));
                }
            },
            None => {},
        }
        i += 1;
    }
    assert(fv.take(functions.len() as int) =~= fv);
    out
}

/// The counter of the function called `name`, looked up in a counter table.
fn lookup_counter(table: &Vec<(String, String)>, name: &String) -> (r: Option<String>)
    ensures
        opt_seq(r) == table_lookup(pair_views(table@), name@),
{
    let mut i = table.len();
    assert(pair_views(table@).take(i as int) =~= pair_views(table@));
    while i > 0
        invariant
            0 <= i <= table.len(),
            table_lookup(pair_views(table@), name@) == table_lookup(
                pair_views(table@).take(i as int),
                name@,
            ),
        decreases i,
    {
        proof {
            let t = pair_views(table@).take(i as int);
            assert(t.drop_last() =~= pair_views(table@).take(i - 1));
        }
        if table[i - 1].0 == *name {
            return Some(table[i - 1].1.clone());
        }
        i -= 1;
    }
    None
}


// ----- classification -----------------------------------------------------

/// What one argument of a key constructor says about the key.
pub enum ArgOutcome {
    /// A parameter the caller supplies.
    Subject(Seq<char>),
    /// A value minted from a shared counter, with that counter.
    Sequence(Seq<char>),
    /// Something Braid cannot attribute, with the reason.
    Unresolved(Seq<char>),
}

/// The latest binding of `name` declared at or above `line`; among several
/// on the same line, the last.
pub open spec fn binding_of(lets: Seq<LetBindingView>, name: Seq<char>, line: usize) -> Option<
    LetBindingView,
>
    decreases lets.len(),
{
    if lets.len() == 0 {
        None
    } else {
        let b = binding_of(lets.drop_last(), name, line);
        let l = lets.last();
        if l.name == name && l.line <= line && (match b {
            Some(x) => x.line <= l.line,
            None => true,
        }) {
            Some(l)
        } else {
            b
        }
    }
}

pub open spec fn local_reason(name: Seq<char>, line: usize) -> Seq<char> {
    "`"@ + name + "` is a local bound at line "@ + decimal(line as nat)
        + "; Braid cannot tell whether it came from caller input"@
}

pub open spec fn unbound_reason(name: Seq<char>, function: Seq<char>) -> Seq<char> {
    "`"@ + name + "` is not a parameter of `"@ + function + "` and has no visible binding"@
}

pub open spec fn opaque_reason(text: Seq<char>) -> Seq<char> {
    "`"@ + text + "` does not reduce to a named binding"@
}

pub open spec fn via_counter(counter: Seq<char>, call: Seq<char>) -> Seq<char> {
    counter + " (via "@ + call + "())"@
}

/// What an argument of a key used on line `line` of `f` says about the key.
pub open spec fn arg_outcome(
    fns: Seq<FunctionInfoView>,
    f: FunctionInfoView,
    line: usize,
    arg: ArgOriginView,
) -> ArgOutcome {
    match arg {
        ArgOriginView::Ident(name) => if f.params.contains(name) {
            ArgOutcome::Subject(name)
        } else {
            match binding_of(f.lets, name, line) {
                Some(b) => match b.from_storage_key {
                    Some(c) => ArgOutcome::Sequence(c),
                    None => match b.from_call {
                        Some(call) => match counter_of_call(fns, call) {
                            Some(counter) => ArgOutcome::Sequence(via_counter(counter, call)),
                            None => ArgOutcome::Unresolved(local_reason(name, b.line)),
                        },
                        None => ArgOutcome::Unresolved(local_reason(name, b.line)),
                    },
                },
                None => ArgOutcome::Unresolved(unbound_reason(name, f.name)),
            }
        },
        ArgOriginView::Opaque(text) => ArgOutcome::Unresolved(opaque_reason(text)),
    }
}

/// The counter of the first sequence-minted argument.
pub open spec fn first_sequence(os: Seq<ArgOutcome>) -> Option<Seq<char>>
    decreases os.len(),
{
    if os.len() == 0 {
        None
    } else {
        match first_sequence(os.drop_last()) {
            Some(c) => Some(c),
            None => match os.last() {
                ArgOutcome::Sequence(c) => Some(c),
                _ => None,
            },
        }
    }
}

/// The reason of the first argument Braid cannot attribute.
pub open spec fn first_unresolved(os: Seq<ArgOutcome>) -> Option<Seq<char>>
    decreases os.len(),
{
    if os.len() == 0 {
        None
    } else {
        match first_unresolved(os.drop_last()) {
            Some(r) => Some(r),
            None => match os.last() {
                ArgOutcome::Unresolved(r) => Some(r),
                _ => None,
            },
        }
    }
}

/// The caller-supplied parameters among the arguments, in order.
pub open spec fn subjects(os: Seq<ArgOutcome>) -> Seq<Seq<char>>
    decreases os.len(),
{
    if os.len() == 0 {
        Seq::empty()
    } else {
        match os.last() {
            ArgOutcome::Subject(n) => subjects(os.drop_last()).push(n),
            _ => subjects(os.drop_last()),
        }
    }
}

/// How the key of `raw`, an access in `f`, is derived. A sequence-minted
/// argument decides it; otherwise an unattributable one makes it
/// unresolvable; otherwise it is keyed by the caller's parameters.
pub open spec fn key_class(
    fns: Seq<FunctionInfoView>,
    f: FunctionInfoView,
    raw: RawAccessView,
) -> KeyClassView {
    if raw.key_args.len() == 0 {
        KeyClassView::Static
    } else {
        let os = raw.key_args.map_values(|a: ArgOriginView| arg_outcome(fns, f, raw.line, a));
        match first_sequence(os) {
            Some(c) => KeyClassView::SequenceDerived { counter: c },
            None => match first_unresolved(os) {
                Some(r) => KeyClassView::Unresolvable { reason: r },
                None => KeyClassView::SubjectDerived { param: seq_join(subjects(os), ", "@) },
            },
        }
    }
}

/// The most recent binding of `name` declared at or above `line`.
fn find_binding(f: &FunctionInfo, name: &String, line: usize) -> (r: Option<usize>)
    ensures
        match r {
            Some(k) => k < f.lets.len() && binding_of(f@.lets, name@, line) == Some(
                f@.lets[k as int],
            ),
            None => binding_of(f@.lets, name@, line) is None,
        },
{
    let ghost lv = f@.lets;
    let mut best: Option<usize> = None;
    let mut i: usize = 0;
    while i < f.lets.len()
        invariant
            0 <= i <= f.lets.len(),
            lv == f@.lets,
            match best {
                Some(k) => k < i && binding_of(lv.take(i as int), name@, line) == Some(lv[k as int]),
                None => binding_of(lv.take(i as int), name@, line) is None,
            },
        decreases f.lets.len() - i,
    {
        let l = &f.lets[i];
        proof {
            assert(lv.take((i + 1) as int).drop_last() =~= lv.take(i as int));
            assert(lv.take((i + 1) as int).last() == l@);
        }
        if l.name == *name && l.line <= line {
            match best {
                Some(k) => {
                    if f.lets[k].line <= l.line {
                        best = Some(i);
                    }
                },
                None => {
                    best = Some(i);
                },
            }
        }
        i += 1;
    }
    assert(lv.take(f.lets.len() as int) =~= lv);
    best
}

pub open spec fn outcomes(fns: Seq<FunctionInfoView>, f: FunctionInfoView, raw: RawAccessView) -> Seq<
    ArgOutcome,
> {
    raw.key_args.map_values(|a: ArgOriginView| arg_outcome(fns, f, raw.line, a))
}

/// Classify the key of `raw`, an access in `f`.
fn classify_key(
    f: &FunctionInfo,
    raw: &RawAccess,
    counters: &Vec<(String, String)>,
    Ghost(fns): Ghost<Seq<FunctionInfoView>>,
) -> (r: KeyClass)
    requires
        pair_views(counters@) == counter_table(fns),
    ensures
        r@ == key_class(fns, f@, raw@),
{
    if raw.key_args.len() == 0 {
        return KeyClass::Static;
    }
    let ghost os = outcomes(fns, f@, raw@);
    let mut subjects_v: Vec<String> = Vec::new();
    let mut unresolved: Option<String> = None;
    let mut i: usize = 0;
    while i < raw.key_args.len()
        invariant
            0 <= i <= raw.key_args.len(),
            pair_views(counters@) == counter_table(fns),
            os == outcomes(fns, f@, raw@),
            os.len() == raw.key_args.len(),
            first_sequence(os.take(i as int)) is None,
            opt_seq(unresolved) == first_unresolved(os.take(i as int)),
            views(subjects_v@) == subjects(os.take(i as int)),
        decreases raw.key_args.len() - i,
    {
        let ghost pre = os.take(i as int);
        proof {
            assert(os.take((i + 1) as int).drop_last() =~= pre);
            assert(os.take((i + 1) as int).last() == os[i as int]);
            assert(os[i as int] == arg_outcome(fns, f@, raw@.line, raw@.key_args[i as int]));
            assert(raw@.key_args[i as int] == raw.key_args[i as int]@);
        }
        match &raw.key_args[i] {
            ArgOrigin::Ident(name) => {
                if contains_name(&f.params, name) {
                    subjects_v.push(name.clone());
                    proof {
                        assert(views(subjects_v@) =~= subjects(pre).push(name@));
                    }
                } else {
                    let b = find_binding(f, name, raw.line);
                    match b {
                        Some(k) => {
                            let l = &f.lets[k];
                            proof {
                                assert(f@.lets[k as int] == l@);
                            }
                            match &l.from_storage_key {
                                Some(c) => {
                                    let r = KeyClass::SequenceDerived { counter: c.clone() };
                                    proof {
                                        lemma_first_sequence_prefix(os, i as int);
                                    }
                                    return r;
                                },
                                None => {},
                            }
                            match &l.from_call {
                                Some(call) => {
                                    proof {
                                        lemma_counter_table(fns, call@);
                                    }
                                    match lookup_counter(counters, call) {
                                        Some(counter) => {
                                            let mut c = counter;
                                            c.append(" (via ");
                                            c.append(call.as_str());
                                            c.append("())");
                                            proof {
                                                lemma_first_sequence_prefix(os, i as int);
                                            }
                                            return KeyClass::SequenceDerived { counter: c };
                                        },
                                        None => {},
                                    }
                                },
                                None => {},
                            }
                            if unresolved.is_none() {
                                let mut m = owned("`");
                                m.append(name.as_str());
                                m.append("` is a local bound at line ");
                                let d = decimal_string(l.line);
                                m.append(d.as_str());
                                m.append("; Braid cannot tell whether it came from caller input");
                                unresolved = Some(m);
                            }
                        },
                        None => {
                            if unresolved.is_none() {
                                let mut m = owned("`");
                                m.append(name.as_str());
                                m.append("` is not a parameter of `");
                                m.append(f.name.as_str());
                                m.append("` and has no visible binding");
                                unresolved = Some(m);
                            }
                        },
                    }
                }
            },
            ArgOrigin::Opaque(text) => {
                if unresolved.is_none() {
                    let mut m = owned("`");
                    m.append(text.as_str());
                    m.append("` does not reduce to a named binding");
                    unresolved = Some(m);
                }
            },
        }
        i += 1;
    }
    assert(os.take(raw.key_args.len() as int) =~= os);
    match unresolved {
        Some(reason) => KeyClass::Unresolvable { reason },
        None => {
            let param = join(&subjects_v, ", ");
            KeyClass::SubjectDerived { param }
        },
    }
}

/// A sequence-minted argument at `i`, with none before it, is the first.
proof fn lemma_first_sequence_prefix(os: Seq<ArgOutcome>, i: int)
    requires
        0 <= i < os.len(),
        first_sequence(os.take(i)) is None,
        os[i] is Sequence,
    ensures
        first_sequence(os) == Some(os[i]->Sequence_0),
    decreases os.len(),
{
    if i == os.len() - 1 {
        assert(os.drop_last() =~= os.take(i));
    } else {
        assert(os.drop_last().take(i) =~= os.take(i));
        lemma_first_sequence_prefix(os.drop_last(), i);
    }
}


/// The classified accesses of one function.
pub open spec fn classify_fn(fns: Seq<FunctionInfoView>, f: FunctionInfoView) -> Seq<
    StorageAccessView,
> {
    f.accesses.map_values(
        |raw: RawAccessView|
            StorageAccessView {
                file: f.file,
                line: raw.line,
                column: raw.column,
                function: f.name,
                entry_point: f.entry_point,
                admin_path: admin_name(f.name),
                durability: raw.durability,
                access: raw.access,
                key_expr: raw.key_expr,
                key_root: raw.key_root,
                class: key_class(fns, f, raw),
            },
    )
}

/// Every access of the functions in `part`, in order, classified against
/// all of `fns`.
pub open spec fn classified_in(fns: Seq<FunctionInfoView>, part: Seq<FunctionInfoView>) -> Seq<
    StorageAccessView,
>
    decreases part.len(),
{
    if part.len() == 0 {
        Seq::empty()
    } else {
        classified_in(fns, part.drop_last()) + classify_fn(fns, part.last())
    }
}

pub open spec fn classified(fns: Seq<FunctionInfoView>) -> Seq<StorageAccessView> {
    classified_in(fns, fns)
}

pub open spec fn access_views(v: Seq<StorageAccess>) -> Seq<StorageAccessView> {
    v.map_values(|a: StorageAccess| a@)
}

pub open spec fn function_views(v: Seq<FunctionInfo>) -> Seq<FunctionInfoView> {
    v.map_values(|f: FunctionInfo| f@)
}

/// Classify every access of every function.
fn classify_all(functions: &Vec<FunctionInfo>, counters: &Vec<(String, String)>) -> (out: Vec<
    StorageAccess,
>)
    requires
        pair_views(counters@) == counter_table(function_views(functions@)),
    ensures
        access_views(out@) == classified(function_views(functions@)),
{
    let ghost fns = function_views(functions@);
    let mut out: Vec<StorageAccess> = Vec::new();
    let mut i: usize = 0;
    while i < functions.len()
        invariant
            0 <= i <= functions.len(),
            fns == function_views(functions@),
            pair_views(counters@) == counter_table(fns),
            access_views(out@) == classified_in(fns, fns.take(i as int)),
        decreases functions.len() - i,
    {
        let f = &functions[i];
        let admin = f.is_admin_path();
        let ghost before = access_views(out@);
        proof {
            assert(fns.take((i + 1) as int).drop_last() =~= fns.take(i as int));
            assert(fns.take((i + 1) as int).last() == f@);
        }
        let mut j: usize = 0;
        while j < f.accesses.len()
            invariant
                0 <= j <= f.accesses.len(),
                i < functions.len(),
                fns == function_views(functions@),
                pair_views(counters@) == counter_table(fns),
                f@ == fns[i as int],
                admin == admin_name(f@.name),
                access_views(out@) == before + classify_fn(fns, f@).take(j as int),
            decreases f.accesses.len() - j,
        {
            let raw = &f.accesses[j];
            let class = classify_key(f, raw, counters, Ghost(fns));
            let a = StorageAccess {
                file: f.file.clone(),
                line: raw.line,
                column: raw.column,
                function: f.name.clone(),
                entry_point: f.entry_point,
                admin_path: admin,
                durability: raw.durability,
                access: raw.access,
                key_expr: raw.key_expr.clone(),
                key_root: raw.key_root.clone(),
                class,
            };
            proof {
                assert(f@.accesses[j as int] == raw@);
                assert(a@ == classify_fn(fns, f@)[j as int]);
            }
            let ghost prev = out@;
            let ghost av = a@;
            out.push(a);
            proof {
                assert(access_views(out@) =~= access_views(prev).push(av));
                assert(classify_fn(fns, f@).take((j + 1) as int) =~= classify_fn(fns, f@).take(
                    j as int,
                ).push(av));
                assert(access_views(out@) =~= before + classify_fn(fns, f@).take((j + 1) as int));
            }
            j += 1;
        }
        proof {
            assert(classify_fn(fns, f@).take(f.accesses.len() as int) =~= classify_fn(fns, f@));
        }
        i += 1;
    }
    assert(fns.take(functions.len() as int) =~= fns);
    out
}

// ----- severity, summary, remediation --------------------------------------

/// How severe an access is, if it is worth reporting at all.
pub open spec fn severity_of(a: StorageAccessView) -> Option<Severity> {
    let hot = a.entry_point && !a.admin_path;
    if runs_once_name(a.function) && a.access == Access::Write {
        // A constructor runs once and cannot race anything.
        None
    } else if a.durability == Durability::Instance && a.access == Access::Write {
        match a.class {
            KeyClassView::Static => if !hot {
                None
            } else {
                Some(Severity::Warning)
            },
            _ => Some(
                if hot {
                    Severity::Critical
                } else {
                    Severity::Warning
                },
            ),
        }
    } else {
        match (a.class, a.access) {
            (KeyClassView::Static, Access::Write) => Some(
                if hot {
                    Severity::Critical
                } else {
                    Severity::Warning
                },
            ),
            (KeyClassView::SequenceDerived { .. }, Access::Write) => Some(Severity::Warning),
            (KeyClassView::SequenceDerived { .. }, Access::Read) => Some(Severity::Info),
            (KeyClassView::Unresolvable { .. }, Access::Write) => Some(Severity::Warning),
            (KeyClassView::Static, Access::Read) => if a.entry_point {
                Some(Severity::Info)
            } else {
                None
            },
            _ => None,
        }
    }
}

fn severity_for(a: &StorageAccess) -> (r: Option<Severity>)
    ensures
        r == severity_of(a@),
{
    let hot = a.entry_point && !a.admin_path;
    if runs_once(a.function.as_str()) && a.access == Access::Write {
        return None;
    }
    if a.durability == Durability::Instance && a.access == Access::Write {
        return match &a.class {
            KeyClass::Static => if !hot {
                None
            } else {
                Some(Severity::Warning)
            },
            _ => Some(
                if hot {
                    Severity::Critical
                } else {
                    Severity::Warning
                },
            ),
        };
    }
    match (&a.class, a.access) {
        (KeyClass::Static, Access::Write) => Some(
            if hot {
                Severity::Critical
            } else {
                Severity::Warning
            },
        ),
        (KeyClass::SequenceDerived { .. }, Access::Write) => Some(Severity::Warning),
        (KeyClass::SequenceDerived { .. }, Access::Read) => Some(Severity::Info),
        (KeyClass::Unresolvable { .. }, Access::Write) => Some(Severity::Warning),
        (KeyClass::Static, Access::Read) => if a.entry_point {
            Some(Severity::Info)
        } else {
            None
        },
        _ => None,
    }
}

/// The one sentence a finding opens with.
pub open spec fn summary_text(a: StorageAccessView) -> Seq<char> {
    if a.durability == Durability::Instance && a.access == Access::Write {
        match a.class {
            KeyClassView::SubjectDerived { param } => "`"@ + a.key_expr + "` is keyed by `"@
                + param
                + "`, but it lives in instance storage \u{2014} one ledger entry for every key, so the parameter separates nothing"@,
            _ => "writes `"@ + a.key_expr
                + "` in instance storage, which is a single ledger entry shared by every instance key in this contract"@,
        }
    } else {
        match a.class {
            KeyClassView::Static => match a.access {
                Access::Write => "writes the fixed key `"@ + a.key_expr
                    + "` \u{2014} every caller reaching `"@ + a.function
                    + "` touches this same ledger entry"@,
                Access::Read => "reads the fixed key `"@ + a.key_expr
                    + "` \u{2014} shared, but reads alone never conflict"@,
            },
            KeyClassView::SequenceDerived { counter } => "`"@ + a.key_expr
                + "` looks parameterised, but its identifier was minted from `"@ + counter
                + "` \u{2014} every caller serialises on that counter"@,
            KeyClassView::Unresolvable { reason } => "could not classify `"@ + a.key_expr + "`: "@
                + reason,
            KeyClassView::SubjectDerived { param } => "`"@ + a.key_expr + "` is keyed by `"@
                + param + "`"@,
        }
    }
}

fn summary_of(a: &StorageAccess) -> (r: String)
    ensures
        r@ == summary_text(a@),
{
    if a.durability == Durability::Instance && a.access == Access::Write {
        return match &a.class {
            KeyClass::SubjectDerived { param } => {
                let mut m = owned("`");
                m.append(a.key_expr.as_str());
                m.append("` is keyed by `");
                m.append(param.as_str());
                m.append(
                    "`, but it lives in instance storage \u{2014} one ledger entry for every key, so the parameter separates nothing",
                );
                m
            },
            _ => {
                let mut m = owned("writes `");
                m.append(a.key_expr.as_str());
                m.append(
                    "` in instance storage, which is a single ledger entry shared by every instance key in this contract",
                );
                m
            },
        };
    }
    match &a.class {
        KeyClass::Static => match a.access {
            Access::Write => {
                let mut m = owned("writes the fixed key `");
                m.append(a.key_expr.as_str());
                m.append("` \u{2014} every caller reaching `");
                m.append(a.function.as_str());
                m.append("` touches this same ledger entry");
                m
            },
            Access::Read => {
                let mut m = owned("reads the fixed key `");
                m.append(a.key_expr.as_str());
                m.append("` \u{2014} shared, but reads alone never conflict");
                m
            },
        },
        KeyClass::SequenceDerived { counter } => {
            let mut m = owned("`");
            m.append(a.key_expr.as_str());
            m.append("` looks parameterised, but its identifier was minted from `");
            m.append(counter.as_str());
            m.append("` \u{2014} every caller serialises on that counter");
            m
        },
        KeyClass::Unresolvable { reason } => {
            let mut m = owned("could not classify `");
            m.append(a.key_expr.as_str());
            m.append("`: ");
            m.append(reason.as_str());
            m
        },
        KeyClass::SubjectDerived { param } => {
            let mut m = owned("`");
            m.append(a.key_expr.as_str());
            m.append("` is keyed by `");
            m.append(param.as_str());
            m.append("`");
            m
        },
    }
}

pub const FIX_INSTANCE_STATIC: &'static str = "\
This is a fixed key in instance storage, which is the right place for it \u{2014} but it
is written on a path users reach, so every such call serialises on the contract
instance entry. Either move the write off the hot path (set it once at
construction, or in an admin function), or move the value to its own persistent
entry if it genuinely changes during normal operation.";

pub const FIX_INSTANCE_SUBJECT: &'static str = "\
Move per-subject data out of instance storage into persistent storage:

    // before \u{2014} one ledger entry for the whole contract
    env.storage().instance().set(&DataKey::Balance(addr), &amount);

    // after \u{2014} one ledger entry per address
    env.storage().persistent().set(&DataKey::Balance(addr), &amount);

Keep instance storage for what genuinely is global and rarely written: the
admin address, immutable configuration, the contract's own TTL. Anything
written on a normal user path does not belong there.";

pub const FIX_SEQUENCE: &'static str = "\
Derive the identifier from data the caller already supplies, so no shared
counter is read or bumped:

    // before \u{2014} every caller reads and writes DataKey::Seq
    let id: u64 = env.storage().persistent().get(&DataKey::Seq).unwrap_or(0);
    env.storage().persistent().set(&DataKey::Seq, &(id + 1));
    env.storage().persistent().set(&DataKey::Job(id), &job);

    // after \u{2014} the id is a function of the caller's own input
    let id = env.crypto().sha256(&(owner, target, salt).to_xdr(&env));
    env.storage().persistent().set(&DataKey::Job(id), &job);

You lose dense sequential ids and gain the ability to run in parallel. If
callers need to enumerate their own entries, keep a per-caller index
(`DataKey::OwnerJobs(owner)`) rather than a global one.";

pub const FIX_STATIC_WRITE: &'static str = "\
Shard the entry by whoever writes it, so two callers no longer collide:

    // before \u{2014} one entry, every caller writes it
    let total: i128 = env.storage().persistent().get(&DataKey::Total).unwrap_or(0);
    env.storage().persistent().set(&DataKey::Total, &(total + amount));

    // after \u{2014} one entry per writer, summed on read
    let key = DataKey::TotalShard(caller.clone());
    let shard: i128 = env.storage().persistent().get(&key).unwrap_or(0);
    env.storage().persistent().set(&key, &(shard + amount));

If the aggregate must be readable in one call, keep the shards authoritative
and recompute lazily, or accept that the reader pays to fold them. Reads do
not conflict, so a read-heavy aggregate is much cheaper to shard than it looks.";

pub const FIX_STATIC_READ: &'static str = "\
No action needed. Reads never place an entry in the read-write footprint, so a
shared read-only entry \u{2014} configuration, the admin address, an immutable
parameter \u{2014} does not serialise anything. It is listed only so the report is a
complete account of what this contract touches.";

pub const FIX_UNRESOLVABLE: &'static str = "\
Braid could not follow this key expression, so it makes no claim either way.
Check by hand whether the value in the key comes from caller input (safe) or
from shared contract state (not safe). If it is caller input, binding it
directly from the parameter rather than through intermediate locals will let
Braid classify it next time.";

pub const FIX_NONE: &'static str = "No action needed.";

/// What to do about an access.
pub open spec fn remediation_text(a: StorageAccessView) -> Seq<char> {
    if a.durability == Durability::Instance && a.access == Access::Write {
        if a.class is Static {
            FIX_INSTANCE_STATIC@
        } else {
            FIX_INSTANCE_SUBJECT@
        }
    } else {
        match a.class {
            KeyClassView::SequenceDerived { .. } => FIX_SEQUENCE@,
            KeyClassView::Static => if a.access == Access::Write {
                FIX_STATIC_WRITE@
            } else {
                FIX_STATIC_READ@
            },
            KeyClassView::Unresolvable { .. } => FIX_UNRESOLVABLE@,
            KeyClassView::SubjectDerived { .. } => FIX_NONE@,
        }
    }
}

fn remediation_for(a: &StorageAccess) -> (r: String)
    ensures
        r@ == remediation_text(a@),
{
    if a.durability == Durability::Instance && a.access == Access::Write {
        if matches!(a.class, KeyClass::Static) {
            return owned(FIX_INSTANCE_STATIC);
        }
        return owned(FIX_INSTANCE_SUBJECT);
    }
    match &a.class {
        KeyClass::SequenceDerived { .. } => owned(FIX_SEQUENCE),
        KeyClass::Static => if a.access == Access::Write {
            owned(FIX_STATIC_WRITE)
        } else {
            owned(FIX_STATIC_READ)
        },
        KeyClass::Unresolvable { .. } => owned(FIX_UNRESOLVABLE),
        KeyClass::SubjectDerived { .. } => owned(FIX_NONE),
    }
}


// ----- who touches which entry ---------------------------------------------

/// An entry-point access on an entry that different callers share.
pub open spec fn counted(a: StorageAccessView) -> bool {
    a.entry_point && shared(a.durability, a.class)
}

/// A counted access on the entry `d` by a function that can run more than
/// once; with `writes_only`, a write.
pub open spec fn touches(a: StorageAccessView, d: Seq<char>, writes_only: bool) -> bool {
    &&& counted(a)
    &&& domain_of(a.durability, a.key_root) == d
    &&& !runs_once_name(a.function)
    &&& writes_only ==> a.access == Access::Write
}

/// The entry points that touch the entry `d` (with `writes_only`, that write
/// it), leaving out those that run once.
pub open spec fn touch_set(cs: Seq<StorageAccessView>, d: Seq<char>, writes_only: bool) -> Set<
    Seq<char>,
> {
    Set::new(
        |n: Seq<char>|
            exists|i: int|
                0 <= i < cs.len() && touches(#[trigger] cs[i], d, writes_only) && cs[i].function
                    == n,
    )
}

pub open spec fn touchers(cs: Seq<StorageAccessView>, d: Seq<char>) -> Set<Seq<char>> {
    touch_set(cs, d, false)
}

pub open spec fn writers(cs: Seq<StorageAccessView>, d: Seq<char>) -> Set<Seq<char>> {
    touch_set(cs, d, true)
}

/// The class of the first counted access on the entry `d`.
pub open spec fn class_of(cs: Seq<StorageAccessView>, d: Seq<char>) -> Option<KeyClassView>
    decreases cs.len(),
{
    if cs.len() == 0 {
        None
    } else {
        match class_of(cs.drop_last(), d) {
            Some(c) => Some(c),
            None => if counted(cs.last()) && domain_of(cs.last().durability, cs.last().key_root)
                == d {
                Some(cs.last().class)
            } else {
                None
            },
        }
    }
}

fn touches_exec(a: &StorageAccess, d: &String, writes_only: bool) -> (r: bool)
    ensures
        r == touches(a@, d@, writes_only),
{
    a.entry_point && is_shared_domain(a.durability, &a.class) && conflict_domain(
        a.durability,
        &a.key_root,
    ) == *d && !runs_once(a.function.as_str()) && (!writes_only || a.access == Access::Write)
}

/// The functions of `touch_set(cs, d, writes_only)`, in increasing order.
fn names_touching(cs: &Vec<StorageAccess>, d: &String, writes_only: bool) -> (v: Vec<String>)
    ensures
        strictly_sorted(views(v@)),
        lists(views(v@), touch_set(access_views(cs@), d@, writes_only)),
{
    let ghost cv = access_views(cs@);
    let mut v: Vec<String> = Vec::new();
    let mut i: usize = 0;
    while i < cs.len()
        invariant
            0 <= i <= cs.len(),
            cv == access_views(cs@),
            strictly_sorted(views(v@)),
            lists(views(v@), touch_set(cv.take(i as int), d@, writes_only)),
        decreases cs.len() - i,
    {
        let ghost before = views(v@);
        let a = &cs[i];
        let t = touches_exec(a, d, writes_only);
        if t {
            insert_name(&mut v, &a.function);
        }
        proof {
            let pre = cv.take(i as int);
            let now = cv.take((i + 1) as int);
            assert(now[i as int] == a@);
            assert forall|n: Seq<char>| #![trigger views(v@).contains(n)]
                #![trigger touch_set(now, d@, writes_only).contains(n)]
                views(v@).contains(n) <==> touch_set(now, d@, writes_only).contains(n) by {
                if touch_set(now, d@, writes_only).contains(n) {
                    let k = choose|k: int|
                        0 <= k < now.len() && touches(#[trigger] now[k], d@, writes_only)
                            && now[k].function == n;
                    if k < i {
                        assert(pre[k] == now[k]);
                        assert(touch_set(pre, d@, writes_only).contains(n));
                    }
                }
                if views(v@).contains(n) && !before.contains(n) {
                    assert(t && n == a@.function);
                }
                if before.contains(n) {
                    assert(touch_set(pre, d@, writes_only).contains(n));
                    let k = choose|k: int|
                        0 <= k < pre.len() && touches(#[trigger] pre[k], d@, writes_only)
                            && pre[k].function == n;
                    assert(now[k] == pre[k]);
                }
            }
        }
        i += 1;
    }
    assert(cv.take(cs.len() as int) =~= cv);
    v
}

/// The names of a strictly sorted list other than `n`.
fn without(v: &Vec<String>, n: &String) -> (r: Vec<String>)
    requires
        strictly_sorted(views(v@)),
    ensures
        strictly_sorted(views(r@)),
        forall|x: Seq<char>| #[trigger]
            views(r@).contains(x) <==> (views(v@).contains(x) && x != n@),
{
    let mut r: Vec<String> = Vec::new();
    let mut i: usize = 0;
    while i < v.len()
        invariant
            0 <= i <= v.len(),
            strictly_sorted(views(v@)),
            strictly_sorted(views(r@)),
            forall|k: int|
                0 <= k < r.len() ==> exists|j: int|
                    0 <= j < i && #[trigger] views(r@)[k] == #[trigger] views(v@)[j],
            forall|x: Seq<char>| #[trigger]
                views(r@).contains(x) <==> (views(v@).take(i as int).contains(x) && x != n@),
        decreases v.len() - i,
    {
        let ghost before = views(r@);
        if v[i] != *n {
            r.push(v[i].clone());
            proof {
                let rv = views(r@);
                assert(rv =~= before.push(views(v@)[i as int]));
                assert forall|a: int, b: int| 0 <= a < b < rv.len() implies seq_lt(
                    #[trigger] rv[a],
                    #[trigger] rv[b],
                ) by {
                    if b == rv.len() - 1 {
                        let j = choose|j: int| 0 <= j < i && before[a] == #[trigger] views(v@)[j];
                        assert(seq_lt(views(v@)[j], views(v@)[i as int]));
                    }
                }
                assert forall|k: int| 0 <= k < rv.len() implies exists|j: int|
                    0 <= j < i + 1 && #[trigger] rv[k] == #[trigger] views(v@)[j] by {
                    if k < before.len() {
                        let j = choose|j: int| 0 <= j < i && before[k] == #[trigger] views(v@)[j];
                        assert(rv[k] == views(v@)[j]);
                    } else {
                        assert(rv[k] == views(v@)[i as int]);
                    }
                }
            }
        }
        proof {
            let rv = views(r@);
            let tk = views(v@).take((i + 1) as int);
            assert(tk =~= views(v@).take(i as int).push(views(v@)[i as int]));
            assert forall|x: Seq<char>| #[trigger] rv.contains(x) <==> (tk.contains(x) && x != n@) by {
                if tk.contains(x) && x != n@ {
                    let k = choose|k: int| 0 <= k < tk.len() && tk[k] == x;
                    if k < i {
                        assert(views(v@).take(i as int)[k] == x);
                        assert(before.contains(x));
                        let m = choose|m: int| 0 <= m < before.len() && before[m] == x;
                        assert(rv[m] == x);
                    } else {
                        assert(rv[rv.len() - 1] == x);
                    }
                }
                if rv.contains(x) {
                    let k = choose|k: int| 0 <= k < rv.len() && rv[k] == x;
                    if k < before.len() {
                        assert(before[k] == x);
                        assert(before.contains(x));
                        let m = choose|m: int| 0 <= m < i && views(v@).take(i as int)[m] == x;
                        assert(tk[m] == x);
                    } else {
                        assert(tk[i as int] == x);
                    }
                }
            }
        }
        i += 1;
    }
    assert(views(v@).take(v.len() as int) =~= views(v@));
    r
}

// ----- findings -----------------------------------------------------------

/// The finding reported for `a`, one of the classified accesses `cs`.
pub open spec fn finding_for(cs: Seq<StorageAccessView>, a: StorageAccessView) -> FindingView {
    FindingView {
        severity: severity_of(a)->0,
        access: a,
        summary: summary_text(a),
        remediation: remediation_text(a),
        also_touched_by: sorted_names(
            touchers(cs, domain_of(a.durability, a.key_root)).remove(a.function),
        ),
        context: Seq::empty(),
    }
}

/// The findings of the accesses in `part` that are worth reporting, in the
/// order of `part`.
pub open spec fn candidates(cs: Seq<StorageAccessView>, part: Seq<StorageAccessView>) -> Seq<
    FindingView,
>
    decreases part.len(),
{
    if part.len() == 0 {
        Seq::empty()
    } else if severity_of(part.last()) is Some {
        candidates(cs, part.drop_last()).push(finding_for(cs, part.last()))
    } else {
        candidates(cs, part.drop_last())
    }
}

/// Report order: most severe first, then by file, then by line.
pub open spec fn finding_before(x: FindingView, y: FindingView) -> bool {
    ||| x.severity.level() > y.severity.level()
    ||| x.severity.level() == y.severity.level() && seq_lt(x.access.file, y.access.file)
    ||| x.severity.level() == y.severity.level() && x.access.file == y.access.file && x.access.line
        < y.access.line
}

/// `x` placed before the first member of `s` that it comes before.
pub open spec fn insert_finding(s: Seq<FindingView>, x: FindingView) -> Seq<FindingView>
    decreases s.len(),
{
    if s.len() == 0 {
        seq![x]
    } else if finding_before(x, s[0]) {
        seq![x] + s
    } else {
        seq![s[0]] + insert_finding(s.drop_first(), x)
    }
}

/// A stable sort into report order: findings that tie keep their order.
pub open spec fn sort_findings(s: Seq<FindingView>) -> Seq<FindingView>
    decreases s.len(),
{
    if s.len() == 0 {
        s
    } else {
        insert_finding(sort_findings(s.drop_last()), s.last())
    }
}

proof fn lemma_insert_finding(s: Seq<FindingView>, x: FindingView, p: int)
    requires
        0 <= p <= s.len(),
        forall|k: int| 0 <= k < p ==> !finding_before(x, #[trigger] s[k]),
        p < s.len() ==> finding_before(x, s[p]),
    ensures
        insert_finding(s, x) == s.take(p).push(x) + s.skip(p),
    decreases s.len(),
{
    if s.len() == 0 {
        assert(s.take(p).push(x) + s.skip(p) =~= seq![x]);
    } else if p == 0 {
        assert(s.take(p).push(x) + s.skip(p) =~= seq![x] + s);
    } else {
        let t = s.drop_first();
        assert forall|k: int| 0 <= k < p - 1 implies !finding_before(x, #[trigger] t[k]) by {
            assert(t[k] == s[k + 1]);
        }
        lemma_insert_finding(t, x, p - 1);
        assert(s.take(p).push(x) + s.skip(p) =~= seq![s[0]] + (t.take(p - 1).push(x) + t.skip(
            p - 1,
        )));
    }
}

fn before_exec(x: &Finding, y: &Finding) -> (r: bool)
    ensures
        r == finding_before(x@, y@),
{
    let rx = x.severity.rank();
    let ry = y.severity.rank();
    if rx > ry {
        return true;
    }
    if rx != ry {
        return false;
    }
    if lt(x.access.file.as_str(), y.access.file.as_str()) {
        return true;
    }
    x.access.file == y.access.file && x.access.line < y.access.line
}

pub open spec fn finding_views(v: Seq<Finding>) -> Seq<FindingView> {
    v.map_values(|f: Finding| f@)
}

/// Insert a finding into a list already in report order, after every finding
/// it does not come before.
fn insert_in_order(v: &mut Vec<Finding>, x: Finding)
    ensures
        finding_views(final(v)@) == insert_finding(finding_views(old(v)@), x@),
{
    let ghost old_v = finding_views(v@);
    let mut p: usize = 0;
    while p < v.len() && !before_exec(&x, &v[p])
        invariant
            0 <= p <= v.len(),
            finding_views(v@) == old_v,
            forall|k: int| 0 <= k < p ==> !finding_before(x@, #[trigger] old_v[k]),
        decreases v.len() - p,
    {
        p += 1;
    }
    proof {
        lemma_insert_finding(old_v, x@, p as int);
    }
    let ghost xv = x@;
    v.insert(p, x);
    assert(finding_views(v@) =~= old_v.take(p as int).push(xv) + old_v.skip(p as int));
}

/// The finding for the access `a`, which is worth reporting.
fn make_finding(cs: &Vec<StorageAccess>, a: &StorageAccess, severity: Severity) -> (f: Finding)
    requires
        severity_of(a@) == Some(severity),
    ensures
        f@ == finding_for(access_views(cs@), a@),
{
    let domain = conflict_domain(a.durability, &a.key_root);
    let touching = names_touching(cs, &domain, false);
    let also = without(&touching, &a.function);
    proof {
        let set = touchers(access_views(cs@), domain@).remove(a@.function);
        assert forall|x: Seq<char>| #![trigger views(also@).contains(x)] #![trigger set.contains(x)]
            views(also@).contains(x) <==> set.contains(x) by {}
        lemma_sorted_names(views(also@), set);
    }
    let f = Finding {
        severity,
        access: a.clone(),
        summary: summary_of(a),
        remediation: remediation_for(a),
        also_touched_by: also,
        context: Vec::new(),
    };
    assert(f@.context =~= Seq::<crate::model::SourceLineView>::empty());
    f
}

/// Every finding, in report order.
fn collect_findings(cs: &Vec<StorageAccess>) -> (out: Vec<Finding>)
    ensures
        finding_views(out@) == sort_findings(candidates(access_views(cs@), access_views(cs@))),
{
    let ghost cv = access_views(cs@);
    let mut out: Vec<Finding> = Vec::new();
    let mut i: usize = 0;
    while i < cs.len()
        invariant
            0 <= i <= cs.len(),
            cv == access_views(cs@),
            finding_views(out@) == sort_findings(candidates(cv, cv.take(i as int))),
        decreases cs.len() - i,
    {
        let a = &cs[i];
        proof {
            let now = cv.take((i + 1) as int);
            assert(now.drop_last() =~= cv.take(i as int));
            assert(now.last() == a@);
        }
        match severity_for(a) {
            Some(sev) => {
                let f = make_finding(cs, a, sev);
                proof {
                    let c = candidates(cv, cv.take(i as int));
                    assert(c.push(f@).drop_last() =~= c);
                }
                insert_in_order(&mut out, f);
            },
            None => {},
        }
        i += 1;
    }
    assert(cv.take(cs.len() as int) =~= cv);
    out
}


// ----- conflict edges -------------------------------------------------------

/// Why the entry points touching `d` conflict.
pub open spec fn edge_reason(cs: Seq<StorageAccessView>, d: Seq<char>) -> Seq<char> {
    if d == INSTANCE_DOMAIN@ {
        "all instance storage shares one ledger entry"@
    } else {
        let label = match class_of(cs, d) {
            Some(c) => c.label(),
            None => "shared"@,
        };
        label + " key `"@ + d + "`, written by at least one of them"@
    }
}

/// Two entry points, `a` before `b`, that both touch the entry `key_root`
/// where at least one of them writes it.
pub open spec fn is_edge(cs: Seq<StorageAccessView>, e: ConflictEdgeView) -> bool {
    let t = touchers(cs, e.key_root);
    let w = writers(cs, e.key_root);
    &&& t.contains(e.a)
    &&& t.contains(e.b)
    &&& seq_lt(e.a, e.b)
    &&& w.contains(e.a) || w.contains(e.b)
    &&& e.reason == edge_reason(cs, e.key_root)
}

/// Edge order: by `a`, then `b`, then the entry.
pub open spec fn edge_lt(x: ConflictEdgeView, y: ConflictEdgeView) -> bool {
    ||| seq_lt(x.a, y.a)
    ||| x.a == y.a && seq_lt(x.b, y.b)
    ||| x.a == y.a && x.b == y.b && seq_lt(x.key_root, y.key_root)
}

pub open spec fn edges_in_order(s: Seq<ConflictEdgeView>) -> bool {
    forall|i: int, j: int| 0 <= i < j < s.len() ==> edge_lt(#[trigger] s[i], #[trigger] s[j])
}

/// Every conflict edge, in edge order.
pub open spec fn conflict_edges_of(cs: Seq<StorageAccessView>) -> Seq<ConflictEdgeView> {
    choose|s: Seq<ConflictEdgeView>|
        edges_in_order(s) && forall|e: ConflictEdgeView| #[trigger] s.contains(e) <==> is_edge(cs, e)
}

pub open spec fn edge_views(v: Seq<ConflictEdge>) -> Seq<ConflictEdgeView> {
    v.map_values(|e: ConflictEdge| e@)
}

proof fn lemma_edge_lt_irreflexive(x: ConflictEdgeView)
    ensures
        !edge_lt(x, x),
{
    lemma_lt_irreflexive(x.a);
    lemma_lt_irreflexive(x.b);
    lemma_lt_irreflexive(x.key_root);
}

proof fn lemma_edge_lt_transitive(x: ConflictEdgeView, y: ConflictEdgeView, z: ConflictEdgeView)
    ensures
        edge_lt(x, y) && edge_lt(y, z) ==> edge_lt(x, z),
{
    lemma_lt_transitive(x.a, y.a, z.a);
    lemma_lt_transitive(x.b, y.b, z.b);
    lemma_lt_transitive(x.key_root, y.key_root, z.key_root);
}

proof fn lemma_edge_lt_total(x: ConflictEdgeView, y: ConflictEdgeView)
    ensures
        (x.a != y.a || x.b != y.b || x.key_root != y.key_root) ==> edge_lt(x, y) || edge_lt(y, x),
{
    lemma_lt_total(x.a, y.a);
    lemma_lt_total(x.b, y.b);
    lemma_lt_total(x.key_root, y.key_root);
}

/// Insert an edge into a list in edge order, unless it is already there.
fn insert_edge(v: &mut Vec<ConflictEdge>, e: ConflictEdge)
    requires
        edges_in_order(edge_views(old(v)@)),
        forall|x: ConflictEdgeView| #[trigger]
            edge_views(old(v)@).contains(x) && x.a == e@.a && x.b == e@.b && x.key_root
                == e@.key_root ==> x == e@,
    ensures
        edges_in_order(edge_views(final(v)@)),
        forall|x: ConflictEdgeView| #[trigger]
            edge_views(final(v)@).contains(x) <==> (edge_views(old(v)@).contains(x) || x == e@),
{
    let ghost old_v = edge_views(v@);
    let ghost ev = e@;
    let mut p: usize = 0;
    while p < v.len() && edge_before(&v[p], &e)
        invariant
            0 <= p <= v.len(),
            edge_views(v@) == old_v,
            ev == e@,
            forall|j: int| 0 <= j < p ==> edge_lt(#[trigger] old_v[j], ev),
        decreases v.len() - p,
    {
        p += 1;
    }
    if p < v.len() && v[p].a == e.a && v[p].b == e.b && v[p].key_root == e.key_root {
        assert(old_v.contains(old_v[p as int]));
        assert(old_v[p as int] == ev);
        return;
    }
    proof {
        if p < v.len() {
            lemma_edge_lt_total(old_v[p as int], ev);
        }
    }
    v.insert(p, e);
    proof {
        let nv = edge_views(v@);
        assert(nv =~= old_v.take(p as int).push(ev) + old_v.skip(p as int));
        assert forall|i: int, j: int| 0 <= i < j < nv.len() implies edge_lt(
            #[trigger] nv[i],
            #[trigger] nv[j],
        ) by {
            if j < p {
            } else if j == p {
            } else if i < p {
                lemma_edge_lt_transitive(old_v[i], ev, old_v[p as int]);
                if j - 1 > p {
                    lemma_edge_lt_transitive(old_v[i], old_v[p as int], old_v[j - 1]);
                }
            } else if i == p {
                if j - 1 > p {
                    lemma_edge_lt_transitive(ev, old_v[p as int], old_v[j - 1]);
                }
            } else {
            }
        }
        assert forall|x: ConflictEdgeView| #[trigger] nv.contains(x) <==> (old_v.contains(x)
            || x == ev) by {
            if nv.contains(x) {
                let k = choose|k: int| 0 <= k < nv.len() && nv[k] == x;
                if k < p {
                    assert(old_v[k] == x);
                } else if k > p {
                    assert(old_v[k - 1] == x);
                }
            }
            if old_v.contains(x) {
                let k = choose|k: int| 0 <= k < old_v.len() && old_v[k] == x;
                if k < p {
                    assert(nv[k] == x);
                } else {
                    assert(nv[k + 1] == x);
                }
            }
            if x == ev {
                assert(nv[p as int] == x);
            }
        }
    }
}

fn edge_before(x: &ConflictEdge, y: &ConflictEdge) -> (r: bool)
    ensures
        r == edge_lt(x@, y@),
{
    if lt(x.a.as_str(), y.a.as_str()) {
        return true;
    }
    if x.a != y.a {
        return false;
    }
    if lt(x.b.as_str(), y.b.as_str()) {
        return true;
    }
    x.b == y.b && lt(x.key_root.as_str(), y.key_root.as_str())
}

/// The entries some counted access of a repeatable function touches.
pub open spec fn domain_set(cs: Seq<StorageAccessView>) -> Set<Seq<char>> {
    Set::new(|d: Seq<char>| exists|i: int| 0 <= i < cs.len() && touches(#[trigger] cs[i], d, false))
}

/// The entries of `domain_set`, in increasing order.
fn domains(cs: &Vec<StorageAccess>) -> (v: Vec<String>)
    ensures
        strictly_sorted(views(v@)),
        lists(views(v@), domain_set(access_views(cs@))),
{
    let ghost cv = access_views(cs@);
    let mut v: Vec<String> = Vec::new();
    let mut i: usize = 0;
    while i < cs.len()
        invariant
            0 <= i <= cs.len(),
            cv == access_views(cs@),
            strictly_sorted(views(v@)),
            lists(views(v@), domain_set(cv.take(i as int))),
        decreases cs.len() - i,
    {
        let ghost before = views(v@);
        let a = &cs[i];
        let d = conflict_domain(a.durability, &a.key_root);
        let t = touches_exec(a, &d, false);
        if t {
            insert_name(&mut v, &d);
        }
        proof {
            let pre = cv.take(i as int);
            let now = cv.take((i + 1) as int);
            assert(now[i as int] == a@);
            assert forall|n: Seq<char>| #![trigger views(v@).contains(n)]
                #![trigger domain_set(now).contains(n)]
                views(v@).contains(n) <==> domain_set(now).contains(n) by {
                if domain_set(now).contains(n) {
                    let k = choose|k: int| 0 <= k < now.len() && touches(#[trigger] now[k], n, false);
                    if k < i {
                        assert(pre[k] == now[k]);
                        assert(domain_set(pre).contains(n));
                    }
                }
                if views(v@).contains(n) && !before.contains(n) {
                    assert(t && n == d@);
                }
                if before.contains(n) {
                    assert(domain_set(pre).contains(n));
                    let k = choose|k: int| 0 <= k < pre.len() && touches(#[trigger] pre[k], n, false);
                    assert(now[k] == pre[k]);
                }
            }
        }
        i += 1;
    }
    assert(cv.take(cs.len() as int) =~= cv);
    v
}

/// Why the entry points touching `d` conflict.
fn reason_for(cs: &Vec<StorageAccess>, d: &String) -> (r: String)
    ensures
        r@ == edge_reason(access_views(cs@), d@),
{
    if *d == owned(INSTANCE_DOMAIN) {
        return owned("all instance storage shares one ledger entry");
    }
    let ghost cv = access_views(cs@);
    let mut label: &str = "shared";
    let mut found = false;
    let mut i: usize = 0;
    while i < cs.len()
        invariant
            0 <= i <= cs.len(),
            cv == access_views(cs@),
            match class_of(cv.take(i as int), d@) {
                Some(c) => found && label@ == c.label(),
                None => !found && label@ == "shared"@,
            },
        decreases cs.len() - i,
    {
        let a = &cs[i];
        proof {
            let now = cv.take((i + 1) as int);
            assert(now.drop_last() =~= cv.take(i as int));
            assert(now.last() == a@);
        }
        if !found && a.entry_point && is_shared_domain(a.durability, &a.class) && conflict_domain(
            a.durability,
            &a.key_root,
        ) == *d {
            label = a.class.label();
            found = true;
        }
        i += 1;
    }
    assert(cv.take(cs.len() as int) =~= cv);
    let mut r = owned(label);
    r.append(" key `");
    r.append(d.as_str());
    r.append("`, written by at least one of them");
    r
}

/// Pairs `(p, q)` with `p < q`, up to but not including `(i, j)` in
/// lexicographic order.
pub open spec fn pair_done(p: int, q: int, i: int, j: int) -> bool {
    p < i || (p == i && q < j)
}

/// The edges on the entry `d` among the sorted touchers `t` whose index pair
/// comes before `(i, j)`.
pub open spec fn edge_done(
    cs: Seq<StorageAccessView>,
    t: Seq<Seq<char>>,
    d: Seq<char>,
    e: ConflictEdgeView,
    i: int,
    j: int,
) -> bool {
    &&& is_edge(cs, e)
    &&& e.key_root == d
    &&& exists|p: int, q: int|
        0 <= p < q < t.len() && pair_done(p, q, i, j) && #[trigger] t[p] == e.a && #[trigger] t[q]
            == e.b
}

/// Every conflict edge, in edge order.
fn build_edges(cs: &Vec<StorageAccess>) -> (out: Vec<ConflictEdge>)
    ensures
        edge_views(out@) == conflict_edges_of(access_views(cs@)),
        edges_in_order(edge_views(out@)),
        forall|e: ConflictEdgeView| #[trigger]
            edge_views(out@).contains(e) <==> is_edge(access_views(cs@), e),
{
    let ghost cv = access_views(cs@);
    let doms = domains(cs);
    let mut out: Vec<ConflictEdge> = Vec::new();
    let mut k: usize = 0;
    while k < doms.len()
        invariant
            0 <= k <= doms.len(),
            cv == access_views(cs@),
            strictly_sorted(views(doms@)),
            lists(views(doms@), domain_set(cv)),
            edges_in_order(edge_views(out@)),
            forall|e: ConflictEdgeView| #[trigger]
                edge_views(out@).contains(e) <==> (is_edge(cv, e) && views(doms@).take(
                    k as int,
                ).contains(e.key_root)),
        decreases doms.len() - k,
    {
        let d = &doms[k];
        let ghost dv = d@;
        let t = names_touching(cs, d, false);
        let w = names_touching(cs, d, true);
        let ghost before = edge_views(out@);
        proof {
            assert(views(doms@)[k as int] == dv);
            assert(views(doms@).take((k + 1) as int) =~= views(doms@).take(k as int).push(dv));
            assert(!views(doms@).take(k as int).contains(dv)) by {
                if views(doms@).take(k as int).contains(dv) {
                    let m = choose|m: int| 0 <= m < k && #[trigger] views(doms@).take(k as int)[m] == dv;
                    assert(seq_lt(views(doms@)[m], views(doms@)[k as int]));
                    lemma_lt_irreflexive(dv);
                }
            }
        }
        if w.len() > 0 {
            let reason = reason_for(cs, d);
            let mut i: usize = 0;
            while i < t.len()
                invariant
                    0 <= i <= t.len(),
                    cv == access_views(cs@),
                    strictly_sorted(views(t@)),
                    lists(views(t@), touchers(cv, dv)),
                    lists(views(w@), writers(cv, dv)),
                    reason@ == edge_reason(cv, dv),
                    d@ == dv,
                    edges_in_order(edge_views(out@)),
                    forall|e: ConflictEdgeView| #[trigger]
                        edge_views(out@).contains(e) ==> is_edge(cv, e),
                    forall|e: ConflictEdgeView| #[trigger]
                        edge_views(out@).contains(e) <==> (before.contains(e) || edge_done(
                            cv,
                            views(t@),
                            dv,
                            e,
                            i as int,
                            0,
                        )),
                    forall|e: ConflictEdgeView| #[trigger]
                        before.contains(e) ==> e.key_root != dv,
                decreases t.len() - i,
            {
                let mut j: usize = i + 1;
                proof {
                    assert forall|e: ConflictEdgeView| edge_done(
                        cv,
                        views(t@),
                        dv,
                        e,
                        i as int,
                        0,
                    ) <==> edge_done(cv, views(t@), dv, e, i as int, (i + 1) as int) by {
                        if edge_done(cv, views(t@), dv, e, i as int, (i + 1) as int) {
                            let (p, q) = choose|p: int, q: int|
                                0 <= p < q < views(t@).len() && pair_done(
                                    p,
                                    q,
                                    i as int,
                                    (i + 1) as int,
                                ) && #[trigger] views(t@)[p] == e.a && #[trigger] views(t@)[q]
                                    == e.b;
                            assert(pair_done(p, q, i as int, 0));
                        }
                    }
                }
                while j < t.len()
                    invariant
                        0 <= i < j <= t.len(),
                        cv == access_views(cs@),
                        strictly_sorted(views(t@)),
                        lists(views(t@), touchers(cv, dv)),
                        lists(views(w@), writers(cv, dv)),
                        reason@ == edge_reason(cv, dv),
                        d@ == dv,
                        edges_in_order(edge_views(out@)),
                        forall|e: ConflictEdgeView| #[trigger]
                            edge_views(out@).contains(e) ==> is_edge(cv, e),
                        forall|e: ConflictEdgeView| #[trigger]
                            edge_views(out@).contains(e) <==> (before.contains(e) || edge_done(
                                cv,
                                views(t@),
                                dv,
                                e,
                                i as int,
                                j as int,
                            )),
                        forall|e: ConflictEdgeView| #[trigger]
                            before.contains(e) ==> e.key_root != dv,
                    decreases t.len() - j,
                {
                    let ghost prev = edge_views(out@);
                    let ghost ta = views(t@)[i as int];
                    let ghost tb = views(t@)[j as int];
                    let wa = contains_name(&w, &t[i]);
                    let wb = contains_name(&w, &t[j]);
                    proof {
                        assert(t[i as int]@ == ta);
                        assert(t[j as int]@ == tb);
                        assert(views(t@).contains(ta));
                        assert(views(t@).contains(tb));
                        assert(touchers(cv, dv).contains(ta));
                        assert(touchers(cv, dv).contains(tb));
                        assert(seq_lt(ta, tb));
                        assert(wa == writers(cv, dv).contains(ta));
                        assert(wb == writers(cv, dv).contains(tb));
                    }
                    let ghost cand = ConflictEdgeView {
                        a: ta,
                        b: tb,
                        key_root: dv,
                        reason: reason@,
                    };
                    if wa || wb {
                        let e = ConflictEdge {
                            a: t[i].clone(),
                            b: t[j].clone(),
                            key_root: d.clone(),
                            reason: reason.clone(),
                        };
                        proof {
                            assert(e@.a == cand.a);
                            assert(e@.b == cand.b);
                            assert(e@.key_root == cand.key_root);
                            assert(e@.reason == cand.reason);
                            assert(e@ == cand);
                            assert(is_edge(cv, cand));
                            assert forall|x: ConflictEdgeView| #[trigger]
                                prev.contains(x) && x.a == e@.a && x.b == e@.b && x.key_root
                                    == e@.key_root implies x == e@ by {
                                assert(is_edge(cv, x));
                            }
                        }
                        insert_edge(&mut out, e);
                    }
                    proof {
                        let now = edge_views(out@);
                        assert forall|x: ConflictEdgeView| #[trigger] now.contains(x) <==> (
                        prev.contains(x) || ((wa || wb) && x == cand)) by {}
                        assert forall|e: ConflictEdgeView| #[trigger]
                            now.contains(e) <==> (before.contains(e) || edge_done(
                                cv,
                                views(t@),
                                dv,
                                e,
                                i as int,
                                (j + 1) as int,
                            )) by {
                            if edge_done(cv, views(t@), dv, e, i as int, (j + 1) as int) {
                                let (p, q) = choose|p: int, q: int|
                                    0 <= p < q < views(t@).len() && pair_done(
                                        p,
                                        q,
                                        i as int,
                                        (j + 1) as int,
                                    ) && #[trigger] views(t@)[p] == e.a && #[trigger] views(t@)[q]
                                        == e.b;
                                if p == i && q == j {
                                    assert(writers(cv, dv).contains(e.a) || writers(
                                        cv,
                                        dv,
                                    ).contains(e.b));
                                    assert(views(w@).contains(ta) || views(w@).contains(tb));
                                    assert(wa || wb);
                                } else {
                                    assert(pair_done(p, q, i as int, j as int));
                                    assert(edge_done(cv, views(t@), dv, e, i as int, j as int));
                                }
                            }
                            if now.contains(e) && !prev.contains(e) {
                                assert(e == cand);
                                assert(is_edge(cv, e));
                                assert(pair_done(i as int, j as int, i as int, (j + 1) as int));
                                assert(edge_done(cv, views(t@), dv, e, i as int, (j + 1) as int));
                            }
                            if prev.contains(e) && !before.contains(e) {
                                assert(edge_done(cv, views(t@), dv, e, i as int, j as int));
                                let (p, q) = choose|p: int, q: int|
                                    0 <= p < q < views(t@).len() && pair_done(
                                        p,
                                        q,
                                        i as int,
                                        j as int,
                                    ) && #[trigger] views(t@)[p] == e.a && #[trigger] views(t@)[q]
                                        == e.b;
                                assert(pair_done(p, q, i as int, (j + 1) as int));
                            }
                        }
                    }
                    j += 1;
                }
                proof {
                    let now = edge_views(out@);
                    assert forall|e: ConflictEdgeView| #[trigger]
                        now.contains(e) <==> (before.contains(e) || edge_done(
                            cv,
                            views(t@),
                            dv,
                            e,
                            (i + 1) as int,
                            0,
                        )) by {
                        if edge_done(cv, views(t@), dv, e, (i + 1) as int, 0) {
                            let (p, q) = choose|p: int, q: int|
                                0 <= p < q < views(t@).len() && pair_done(
                                    p,
                                    q,
                                    (i + 1) as int,
                                    0,
                                ) && #[trigger] views(t@)[p] == e.a && #[trigger] views(t@)[q]
                                    == e.b;
                            assert(pair_done(p, q, i as int, j as int));
                        }
                        if edge_done(cv, views(t@), dv, e, i as int, j as int) {
                            let (p, q) = choose|p: int, q: int|
                                0 <= p < q < views(t@).len() && pair_done(
                                    p,
                                    q,
                                    i as int,
                                    j as int,
                                ) && #[trigger] views(t@)[p] == e.a && #[trigger] views(t@)[q]
                                    == e.b;
                            assert(pair_done(p, q, (i + 1) as int, 0));
                        }
                    }
                }
                i += 1;
            }
            proof {
                let now = edge_views(out@);
                assert forall|e: ConflictEdgeView| #[trigger]
                    now.contains(e) <==> (is_edge(cv, e) && views(doms@).take(
                        (k + 1) as int,
                    ).contains(e.key_root)) by {
                    if is_edge(cv, e) && e.key_root == dv {
                        lemma_edge_indices(cv, views(t@), dv, e);
                    }
                    if now.contains(e) && !before.contains(e) {
                        assert(edge_done(cv, views(t@), dv, e, t.len() as int, 0));
                        assert(views(doms@).take((k + 1) as int)[k as int] == dv);
                    }
                    if is_edge(cv, e) && views(doms@).take((k + 1) as int).contains(e.key_root) {
                        if e.key_root != dv {
                            let m = choose|m: int|
                                0 <= m < k + 1 && #[trigger] views(doms@).take((k + 1) as int)[m]
                                    == e.key_root;
                            assert(views(doms@).take(k as int)[m] == e.key_root);
                        }
                    }
                }
            }
        } else {
            proof {
                assert forall|e: ConflictEdgeView| #[trigger]
                    edge_views(out@).contains(e) <==> (is_edge(cv, e) && views(doms@).take(
                        (k + 1) as int,
                    ).contains(e.key_root)) by {
                    if is_edge(cv, e) && views(doms@).take((k + 1) as int).contains(e.key_root) {
                        if e.key_root == dv {
                            assert(writers(cv, dv).contains(e.a) || writers(cv, dv).contains(
                                e.b,
                            ));
                            if writers(cv, dv).contains(e.a) {
                                assert(views(w@).contains(e.a));
                            } else {
                                assert(views(w@).contains(e.b));
                            }
                        } else {
                            let m = choose|m: int|
                                0 <= m < k + 1 && #[trigger] views(doms@).take((k + 1) as int)[m]
                                    == e.key_root;
                            assert(views(doms@).take(k as int)[m] == e.key_root);
                        }
                    }
                }
            }
        }
        k += 1;
    }
    proof {
        let ov = edge_views(out@);
        assert(views(doms@).take(doms.len() as int) =~= views(doms@));
        assert forall|e: ConflictEdgeView| #[trigger] ov.contains(e) <==> is_edge(cv, e) by {
            if is_edge(cv, e) {
                let i = choose|i: int|
                    0 <= i < cv.len() && touches(#[trigger] cv[i], e.key_root, false)
                        && cv[i].function == e.a;
                assert(domain_set(cv).contains(e.key_root));
            }
        }
        lemma_edges_unique(cv, ov);
    }
    out
}

/// The touchers of `d` listed in order give every edge on `d` an index pair.
proof fn lemma_edge_indices(
    cs: Seq<StorageAccessView>,
    t: Seq<Seq<char>>,
    d: Seq<char>,
    e: ConflictEdgeView,
)
    requires
        strictly_sorted(t),
        lists(t, touchers(cs, d)),
        is_edge(cs, e),
        e.key_root == d,
    ensures
        edge_done(cs, t, d, e, t.len() as int, 0),
{
    assert(t.contains(e.a));
    assert(t.contains(e.b));
    let p = choose|p: int| 0 <= p < t.len() && t[p] == e.a;
    let q = choose|q: int| 0 <= q < t.len() && t[q] == e.b;
    if q <= p {
        if q == p {
            lemma_lt_irreflexive(e.a);
        } else {
            assert(seq_lt(t[q], t[p]));
            lemma_lt_asymmetric(e.a, e.b);
        }
    }
    assert(pair_done(p, q, t.len() as int, 0));
}

/// The edge list `s`, in edge order and holding exactly the edges, is the one
/// `conflict_edges_of` picks.
proof fn lemma_edges_unique(cs: Seq<StorageAccessView>, s: Seq<ConflictEdgeView>)
    requires
        edges_in_order(s),
        forall|e: ConflictEdgeView| #[trigger] s.contains(e) <==> is_edge(cs, e),
    ensures
        conflict_edges_of(cs) == s,
{
    let c = conflict_edges_of(cs);
    assert(edges_in_order(c) && forall|e: ConflictEdgeView| #[trigger]
        c.contains(e) <==> is_edge(cs, e));
    let less = |x: ConflictEdgeView, y: ConflictEdgeView| edge_lt(x, y);
    assert forall|x: ConflictEdgeView| !#[trigger] less(x, x) by {
        lemma_edge_lt_irreflexive(x);
    }
    assert forall|x: ConflictEdgeView, y: ConflictEdgeView, z: ConflictEdgeView| #[trigger]
        less(x, y) && #[trigger] less(y, z) implies less(x, z) by {
        lemma_edge_lt_transitive(x, y, z);
    }
    assert forall|x: ConflictEdgeView, y: ConflictEdgeView|
        c.contains(x) && c.contains(y) && x != y implies #[trigger] less(x, y) || #[trigger] less(
        y,
        x,
    ) by {
        lemma_edge_lt_total(x, y);
    }
    assert forall|i: int, j: int| 0 <= i < j < c.len() implies less(
        #[trigger] c[i],
        #[trigger] c[j],
    ) by {}
    assert forall|i: int, j: int| 0 <= i < j < s.len() implies less(
        #[trigger] s[i],
        #[trigger] s[j],
    ) by {}
    assert forall|x: ConflictEdgeView| #![trigger c.contains(x)] #![trigger s.contains(x)]
        c.contains(x) <==> s.contains(x) by {}
    crate::text::lemma_sorted_unique_by(c, s, less);
}


// ----- entry points ---------------------------------------------------------

/// The functions of the entry-point accesses.
pub open spec fn entry_names(cs: Seq<StorageAccessView>) -> Set<Seq<char>> {
    Set::new(
        |n: Seq<char>|
            exists|i: int| 0 <= i < cs.len() && (#[trigger] cs[i]).entry_point && cs[i].function == n,
    )
}

/// The entry points at either end of a conflict edge.
pub open spec fn conflicted(cs: Seq<StorageAccessView>) -> Set<Seq<char>> {
    Set::new(
        |n: Seq<char>| exists|e: ConflictEdgeView| #[trigger] is_edge(cs, e) && (e.a == n || e.b == n),
    )
}

/// The entry points that are the sole writer of some shared entry, so two
/// concurrent calls of one of them serialise.
pub open spec fn self_conflicted(cs: Seq<StorageAccessView>) -> Set<Seq<char>> {
    Set::new(|n: Seq<char>| exists|d: Seq<char>| #[trigger] writers(cs, d) == set![n])
}

/// The entry points with no conflicting access at all.
pub open spec fn parallel_safe(cs: Seq<StorageAccessView>) -> Set<Seq<char>> {
    entry_names(cs).difference(conflicted(cs)).difference(self_conflicted(cs))
}

/// The entry points, in increasing order.
fn entry_point_list(cs: &Vec<StorageAccess>) -> (v: Vec<String>)
    ensures
        strictly_sorted(views(v@)),
        lists(views(v@), entry_names(access_views(cs@))),
{
    let ghost cv = access_views(cs@);
    let mut v: Vec<String> = Vec::new();
    let mut i: usize = 0;
    while i < cs.len()
        invariant
            0 <= i <= cs.len(),
            cv == access_views(cs@),
            strictly_sorted(views(v@)),
            lists(views(v@), entry_names(cv.take(i as int))),
        decreases cs.len() - i,
    {
        let ghost before = views(v@);
        let a = &cs[i];
        if a.entry_point {
            insert_name(&mut v, &a.function);
        }
        proof {
            let pre = cv.take(i as int);
            let now = cv.take((i + 1) as int);
            assert(now[i as int] == a@);
            assert forall|n: Seq<char>| #![trigger views(v@).contains(n)]
                #![trigger entry_names(now).contains(n)]
                views(v@).contains(n) <==> entry_names(now).contains(n) by {
                if entry_names(now).contains(n) {
                    let k = choose|k: int|
                        0 <= k < now.len() && (#[trigger] now[k]).entry_point && now[k].function
                            == n;
                    if k < i {
                        assert(pre[k] == now[k]);
                        assert(entry_names(pre).contains(n));
                    }
                }
                if before.contains(n) {
                    assert(entry_names(pre).contains(n));
                    let k = choose|k: int|
                        0 <= k < pre.len() && (#[trigger] pre[k]).entry_point && pre[k].function
                            == n;
                    assert(now[k] == pre[k]);
                }
            }
        }
        i += 1;
    }
    assert(cv.take(cs.len() as int) =~= cv);
    v
}

/// The entry points that are the sole writer of some shared entry, in
/// increasing order.
fn self_conflict_list(cs: &Vec<StorageAccess>) -> (v: Vec<String>)
    ensures
        strictly_sorted(views(v@)),
        lists(views(v@), self_conflicted(access_views(cs@))),
{
    let ghost cv = access_views(cs@);
    let doms = domains(cs);
    let mut v: Vec<String> = Vec::new();
    let mut k: usize = 0;
    while k < doms.len()
        invariant
            0 <= k <= doms.len(),
            cv == access_views(cs@),
            lists(views(doms@), domain_set(cv)),
            strictly_sorted(views(v@)),
            forall|n: Seq<char>| #[trigger]
                views(v@).contains(n) <==> exists|m: int|
                    0 <= m < k && #[trigger] writers(cv, views(doms@)[m]) == set![n],
        decreases doms.len() - k,
    {
        let ghost before = views(v@);
        let ghost dv = views(doms@)[k as int];
        let w = names_touching(cs, &doms[k], true);
        proof {
            assert(doms[k as int]@ == dv);
        }
        if w.len() == 1 {
            insert_name(&mut v, &w[0]);
            proof {
                let n0 = views(w@)[0];
                assert(views(w@).contains(n0));
                assert forall|x: Seq<char>| writers(cv, dv).contains(x) <==> set![n0].contains(x) by {
                    if writers(cv, dv).contains(x) {
                        assert(views(w@).contains(x));
                    }
                }
                assert(writers(cv, dv) =~= set![n0]);
            }
        }
        proof {
            assert forall|n: Seq<char>| #[trigger]
                views(v@).contains(n) <==> exists|m: int|
                    0 <= m < k + 1 && #[trigger] writers(cv, views(doms@)[m]) == set![n] by {
                if exists|m: int| 0 <= m < k + 1 && #[trigger] writers(cv, views(doms@)[m]) == set![n] {
                    let m = choose|m: int| 0 <= m < k + 1 && #[trigger] writers(cv, views(doms@)[m]) == set![n];
                    if m == k {
                        assert(set![n].contains(n));
                        assert(views(w@).contains(n));
                        if w.len() != 1 {
                            let j = choose|j: int| 0 <= j < views(w@).len() && views(w@)[j] == n;
                            if w.len() > 1 {
                                let other = if j == 0 { 1int } else { 0int };
                                assert(views(w@).contains(views(w@)[other]));
                                assert(set![n].contains(views(w@)[other]));
                                assert(views(w@)[other] == n);
                                if other < j {
                                    assert(seq_lt(views(w@)[other], views(w@)[j]));
                                } else {
                                    assert(seq_lt(views(w@)[j], views(w@)[other]));
                                }
                                lemma_lt_irreflexive(n);
                            }
                        } else {
                            assert(views(w@)[0] == n);
                        }
                    }
                }
                if views(v@).contains(n) && !before.contains(n) {
                    assert(w.len() == 1 && n == views(w@)[0]);
                    assert(writers(cv, views(doms@)[k as int]) == set![n]);
                }
            }
        }
        k += 1;
    }
    proof {
        assert forall|n: Seq<char>| #![trigger views(v@).contains(n)]
            #![trigger self_conflicted(cv).contains(n)]
            views(v@).contains(n) <==> self_conflicted(cv).contains(n) by {
            if self_conflicted(cv).contains(n) {
                let d = choose|d: Seq<char>| #[trigger] writers(cv, d) == set![n];
                assert(set![n].contains(n));
                assert(writers(cv, d).contains(n));
                let i = choose|i: int|
                    0 <= i < cv.len() && touches(#[trigger] cv[i], d, true) && cv[i].function == n;
                assert(touches(cv[i], d, false));
                assert(domain_set(cv).contains(d));
                assert(views(doms@).contains(d));
                let m = choose|m: int| 0 <= m < views(doms@).len() && views(doms@)[m] == d;
                assert(writers(cv, views(doms@)[m]) == set![n]);
            }
        }
    }
    v
}

/// Whether `n` is at either end of one of the edges.
fn on_an_edge(edges: &Vec<ConflictEdge>, n: &String) -> (r: bool)
    ensures
        r == exists|e: ConflictEdgeView|
            #[trigger] edge_views(edges@).contains(e) && (e.a == n@ || e.b == n@),
{
    let ghost ev = edge_views(edges@);
    let mut k: usize = 0;
    while k < edges.len()
        invariant
            0 <= k <= edges.len(),
            ev == edge_views(edges@),
            forall|j: int| 0 <= j < k ==> !((#[trigger] ev[j]).a == n@ || ev[j].b == n@),
        decreases edges.len() - k,
    {
        if edges[k].a == *n || edges[k].b == *n {
            assert(ev[k as int].a == n@ || ev[k as int].b == n@);
            assert(ev.contains(ev[k as int]));
            return true;
        }
        k += 1;
    }
    proof {
        assert forall|e: ConflictEdgeView| #[trigger] ev.contains(e) implies !(e.a == n@ || e.b
            == n@) by {
            let j = choose|j: int| 0 <= j < ev.len() && ev[j] == e;
            assert(!((ev[j]).a == n@ || ev[j].b == n@));
        }
    }
    false
}

/// The entry points with no conflicting access at all, in increasing order.
fn parallel_safe_list(cs: &Vec<StorageAccess>, edges: &Vec<ConflictEdge>, selfs: &Vec<String>) -> (v:
    Vec<String>)
    requires
        forall|e: ConflictEdgeView| #[trigger]
            edge_views(edges@).contains(e) <==> is_edge(access_views(cs@), e),
        lists(views(selfs@), self_conflicted(access_views(cs@))),
    ensures
        strictly_sorted(views(v@)),
        lists(views(v@), parallel_safe(access_views(cs@))),
{
    let ghost cv = access_views(cs@);
    let ghost ev = edge_views(edges@);
    let entries = entry_point_list(cs);
    let mut v: Vec<String> = Vec::new();
    let mut i: usize = 0;
    let ghost keep = parallel_safe(cv);
    while i < entries.len()
        invariant
            0 <= i <= entries.len(),
            cv == access_views(cs@),
            ev == edge_views(edges@),
            forall|e: ConflictEdgeView| #[trigger] ev.contains(e) <==> is_edge(cv, e),
            lists(views(selfs@), self_conflicted(cv)),
            keep == parallel_safe(cv),
            strictly_sorted(views(entries@)),
            lists(views(entries@), entry_names(cv)),
            strictly_sorted(views(v@)),
            forall|k: int|
                0 <= k < v.len() ==> exists|j: int|
                    0 <= j < i && #[trigger] views(v@)[k] == #[trigger] views(entries@)[j],
            forall|x: Seq<char>| #[trigger]
                views(v@).contains(x) <==> (views(entries@).take(i as int).contains(x) && keep.contains(x)),
        decreases entries.len() - i,
    {
        let ghost before = views(v@);
        let ghost n = views(entries@)[i as int];
        let e = on_an_edge(edges, &entries[i]);
        let sc = contains_name(selfs, &entries[i]);
        proof {
            assert(entries[i as int]@ == n);
            assert(views(entries@).contains(n));
            assert(entry_names(cv).contains(n));
            if conflicted(cv).contains(n) {
                let x = choose|x: ConflictEdgeView| #[trigger] is_edge(cv, x) && (x.a == n || x.b == n);
                assert(ev.contains(x));
            }
            if e {
                let x = choose|x: ConflictEdgeView|
                    #[trigger] ev.contains(x) && (x.a == n || x.b == n);
                assert(is_edge(cv, x));
                assert(conflicted(cv).contains(n));
            }
            assert(sc == self_conflicted(cv).contains(n));
            assert((!e && !sc) == keep.contains(n));
        }
        if !e && !sc {
            v.push(entries[i].clone());
            proof {
                let rv = views(v@);
                assert(rv =~= before.push(n));
                assert forall|a: int, b: int| 0 <= a < b < rv.len() implies seq_lt(
                    #[trigger] rv[a],
                    #[trigger] rv[b],
                ) by {
                    if b == rv.len() - 1 {
                        let j = choose|j: int| 0 <= j < i && #[trigger] before[a] == #[trigger] views(entries@)[j];
                        assert(seq_lt(views(entries@)[j], views(entries@)[i as int]));
                    }
                }
                assert forall|k: int| 0 <= k < rv.len() implies exists|j: int|
                    0 <= j < i + 1 && #[trigger] rv[k] == #[trigger] views(entries@)[j] by {
                    if k < before.len() {
                        let j = choose|j: int| 0 <= j < i && #[trigger] before[k] == #[trigger] views(entries@)[j];
                        assert(rv[k] == views(entries@)[j]);
                    } else {
                        assert(rv[k] == views(entries@)[i as int]);
                    }
                }
            }
        }
        proof {
            let rv = views(v@);
            let tk = views(entries@).take((i + 1) as int);
            assert(tk =~= views(entries@).take(i as int).push(n));
            assert forall|x: Seq<char>| #[trigger] rv.contains(x) <==> (tk.contains(x) && keep.contains(x)) by {
                if tk.contains(x) && keep.contains(x) {
                    let k = choose|k: int| 0 <= k < tk.len() && tk[k] == x;
                    if k < i {
                        assert(views(entries@).take(i as int)[k] == x);
                        assert(before.contains(x));
                        let m = choose|m: int| 0 <= m < before.len() && before[m] == x;
                        assert(rv[m] == x);
                    } else {
                        assert(rv[rv.len() - 1] == x);
                    }
                }
                if rv.contains(x) {
                    let k = choose|k: int| 0 <= k < rv.len() && rv[k] == x;
                    if k < before.len() {
                        assert(before[k] == x);
                        assert(before.contains(x));
                        let m = choose|m: int| 0 <= m < i && views(entries@).take(i as int)[m] == x;
                        assert(tk[m] == x);
                    } else {
                        assert(tk[i as int] == x);
                    }
                }
            }
        }
        i += 1;
    }
    proof {
        assert(views(entries@).take(entries.len() as int) =~= views(entries@));
        assert forall|x: Seq<char>| #![trigger views(v@).contains(x)] #![trigger keep.contains(x)]
            views(v@).contains(x) <==> keep.contains(x) by {
            if keep.contains(x) {
                assert(entry_names(cv).contains(x));
                assert(views(entries@).contains(x));
            }
        }
    }
    v
}

// ----- the report -----------------------------------------------------------

/// How many of the findings have severity `s`.
pub open spec fn count_severity(fs: Seq<FindingView>, s: Severity) -> nat
    decreases fs.len(),
{
    if fs.len() == 0 {
        0
    } else {
        count_severity(fs.drop_last(), s) + if fs.last().severity == s {
            1nat
        } else {
            0nat
        }
    }
}

/// The summary counts of a list of findings.
pub fn count_findings(fs: &Vec<Finding>, s: Severity) -> (r: usize)
    ensures
        r == count_severity(finding_views(fs@), s),
{
    let ghost fv = finding_views(fs@);
    let mut n: usize = 0;
    let mut i: usize = 0;
    while i < fs.len()
        invariant
            0 <= i <= fs.len(),
            fv == finding_views(fs@),
            n == count_severity(fv.take(i as int), s),
            n <= i,
        decreases fs.len() - i,
    {
        proof {
            assert(fv.take((i + 1) as int).drop_last() =~= fv.take(i as int));
        }
        if fs[i].severity == s {
            n += 1;
        }
        i += 1;
    }
    assert(fv.take(fs.len() as int) =~= fv);
    n
}

/// The report `analyze` produces for `target` from a scan.
pub open spec fn analysis(target: Seq<char>, scan: ScanResultView) -> ReportView {
    let cs = classified(scan.functions);
    let findings = sort_findings(candidates(cs, cs));
    ReportView {
        schema_version: 1,
        target,
        summary: Summary {
            files_scanned: scan.files_scanned,
            functions_scanned: scan.functions.len() as usize,
            accesses_found: cs.len() as usize,
            entry_points: sorted_names(entry_names(cs)).len() as usize,
            critical: count_severity(findings, Severity::Critical) as usize,
            warning: count_severity(findings, Severity::Warning) as usize,
            info: count_severity(findings, Severity::Info) as usize,
        },
        findings,
        conflict_edges: conflict_edges_of(cs),
        parallel_safe_entry_points: sorted_names(parallel_safe(cs)),
        self_conflicting_entry_points: sorted_names(self_conflicted(cs)),
    }
}

/// Classify every access of a scan, find the conflicts, and report them.
pub fn analyze(target: &str, scan: &ScanResult) -> (r: Report)
    ensures
        r@ == analysis(target@, scan@),
        forall|e: ConflictEdgeView| #[trigger]
            r@.conflict_edges.contains(e) <==> is_edge(classified(scan@.functions), e),
        edges_in_order(r@.conflict_edges),
{
    let ghost fns = function_views(scan.functions@);
    let counters = find_counter_functions(&scan.functions);
    let classified_v = classify_all(&scan.functions, &counters);
    let ghost cs = access_views(classified_v@);
    let findings = collect_findings(&classified_v);
    let conflict_edges = build_edges(&classified_v);
    let entries = entry_point_list(&classified_v);
    let selfs = self_conflict_list(&classified_v);
    let parallel = parallel_safe_list(&classified_v, &conflict_edges, &selfs);
    proof {
        lemma_sorted_names(views(entries@), entry_names(cs));
        lemma_sorted_names(views(selfs@), self_conflicted(cs));
        lemma_sorted_names(views(parallel@), parallel_safe(cs));
    }
    let summary = Summary {
        files_scanned: scan.files_scanned,
        functions_scanned: scan.functions.len(),
        accesses_found: classified_v.len(),
        entry_points: entries.len(),
        critical: count_findings(&findings, Severity::Critical),
        warning: count_findings(&findings, Severity::Warning),
        info: count_findings(&findings, Severity::Info),
    };
    let r = Report {
        schema_version: SCHEMA_VERSION,
        target: owned(target),
        summary,
        findings,
        conflict_edges,
        parallel_safe_entry_points: parallel,
        self_conflicting_entry_points: selfs,
    };
    assert(r@.findings =~= finding_views(r.findings@));
    assert(r@.conflict_edges =~= edge_views(r.conflict_edges@));
    assert(scan@.functions =~= fns);
    r
}

} // verus!
