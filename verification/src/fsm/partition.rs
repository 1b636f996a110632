//! The refinement of a partition of the states of a machine until only
//! states that accept the same words share a class.

use super::machine::Machine;
use crate::types::ascending;
use vstd::prelude::*;
use vstd::set_lib::lemma_len_subset;

verus! {

/// Whether `classes` part the states below `count`, and `class_of` tells the
/// class of each state: every state is a member of its class and of no other,
/// and every class has a member and is listed in increasing order.
pub open spec fn partitions(classes: Seq<Seq<usize>>, class_of: Seq<int>, count: nat) -> bool {
    &&& class_of.len() == count
    &&& forall|s: int|
        0 <= s < count ==> 0 <= #[trigger] class_of[s] < classes.len() && classes[class_of[s]].contains(
            s as usize,
        )
    &&& forall|c: int, k: int|
        0 <= c < classes.len() && 0 <= k < classes[c].len() ==> (#[trigger] classes[c][k]) < count
            && class_of[classes[c][k] as int] == c
    &&& forall|c: int| 0 <= c < classes.len() ==> (#[trigger] classes[c]).len() > 0
    &&& forall|c: int| 0 <= c < classes.len() ==> ascending(#[trigger] classes[c])
}

/// Whether the classes respect what is known of the states: states of one
/// class both accept or both do not, and states of different classes are
/// told apart by some word.
pub open spec fn separates(machine: Machine, class_of: Seq<int>) -> bool {
    forall|s: usize, t: usize|
        s < class_of.len() && t < class_of.len() ==> {
            &&& #[trigger] class_of[s as int] == #[trigger] class_of[t as int]
                ==> machine.finals.contains(s) == machine.finals.contains(t)
            &&& class_of[s as int] != class_of[t as int] ==> machine.distinguishable(s, t)
        }
}

/// Whether the class of the state that follows `s` on `symbol`, or that of
/// the state that follows `t`, waits in `work` with `symbol`.
pub open spec fn queued(
    machine: Machine,
    class_of: Seq<int>,
    work: Seq<(usize, char)>,
    s: usize,
    t: usize,
    symbol: char,
) -> bool {
    work.contains((class_of[machine.next(s, symbol) as int] as usize, symbol)) || work.contains(
        (class_of[machine.next(t, symbol) as int] as usize, symbol),
    )
}

/// Whether `s` and `t` share a class while the states that follow them on
/// `symbol` do not.
pub open spec fn splits(machine: Machine, class_of: Seq<int>, s: usize, t: usize, symbol: char)
    -> bool {
    &&& s < class_of.len()
    &&& t < class_of.len()
    &&& machine.symbols.contains(symbol)
    &&& class_of[s as int] == class_of[t as int]
    &&& class_of[machine.next(s, symbol) as int] != class_of[machine.next(t, symbol) as int]
}

/// Whether every pair of states that must still be parted is provided for:
/// a class that parts them waits in `work`; or the round under way, which
/// parts the classes from `from` up to `upto` by `splitter` on `symbol`, will
/// part them.
pub open spec fn watched(
    machine: Machine,
    class_of: Seq<int>,
    work: Seq<(usize, char)>,
    splitter: Seq<usize>,
    symbol: char,
    from: int,
    upto: int,
) -> bool {
    forall|s: usize, t: usize, a: char| #[trigger]
        splits(machine, class_of, s, t, a) ==> queued(machine, class_of, work, s, t, a) || (a
            == symbol && from <= class_of[s as int] < upto && splitter.contains(
            machine.next(s, a),
        ) != splitter.contains(machine.next(t, a)))
}

/// Whether every member of `splitter` is told apart from every other state.
pub open spec fn tells(machine: Machine, splitter: Seq<usize>, count: nat) -> bool {
    forall|u: usize, v: usize|
        u < count && v < count && #[trigger] splitter.contains(u) && !(#[trigger] splitter.contains(
            v,
        )) ==> machine.distinguishable(u, v)
}

/// Whether every entry of `work` names a class and a symbol of the machine.
pub open spec fn names(machine: Machine, work: Seq<(usize, char)>, classes: nat) -> bool {
    forall|i: int|
        0 <= i < work.len() ==> (#[trigger] work[i]).0 < classes && machine.symbols.contains(
            work[i].1,
        )
}

/// What is kept of a sequence holds the members that are to be kept, and it
/// is increasing where the sequence is.
pub proof fn lemma_filter(s: Seq<usize>, keep: spec_fn(usize) -> bool)
    ensures
        forall|x: usize|
            #![trigger s.filter(keep).contains(x)]
            s.filter(keep).contains(x) <==> (s.contains(x) && keep(x)),
        ascending(s) ==> ascending(s.filter(keep)),
        s.filter(keep).len() <= s.len(),
    decreases s.len(),
{
    reveal(Seq::filter);
    if s.len() > 0 {
        let front = s.drop_last();
        lemma_filter(front, keep);
        let kept = front.filter(keep);
        let all = s.filter(keep);
        assert forall|x: usize| #![trigger all.contains(x)] all.contains(x) <==> (s.contains(x)
            && keep(x)) by {
            assert(kept.contains(x) <==> (front.contains(x) && keep(x)));
            if front.contains(x) {
                let k = choose|k: int| 0 <= k < front.len() && front[k] == x;
                assert(s[k] == x);
            }
            if s.contains(x) {
                let k = choose|k: int| 0 <= k < s.len() && s[k] == x;
                if k < front.len() {
                    assert(front[k] == x);
                }
            }
            if keep(s.last()) {
                if all.contains(x) {
                    let k = choose|k: int| 0 <= k < all.len() && all[k] == x;
                    if k < kept.len() {
                        assert(kept[k] == x);
                    }
                }
                if kept.contains(x) {
                    let k = choose|k: int| 0 <= k < kept.len() && kept[k] == x;
                    assert(all[k] == x);
                }
                if x == s.last() {
                    assert(all[kept.len() as int] == x);
                    assert(s[s.len() - 1] == x);
                }
            }
        }
        if ascending(s) {
            assert(ascending(front)) by {
                assert forall|i: int, j: int| 0 <= i < j < front.len() implies front[i] < front[j] by {
                    assert(s[i] < s[j]);
                }
            }
            if keep(s.last()) {
                assert forall|i: int, j: int| 0 <= i < j < all.len() implies all[i] < all[j] by {
                    if j == kept.len() {
                        assert(kept.contains(kept[i]));
                        let k = choose|k: int| 0 <= k < front.len() && front[k] == kept[i];
                        assert(s[k] < s[s.len() - 1]);
                    } else {
                        assert(kept[i] < kept[j]);
                    }
                }
            }
        }
    }
}

/// The numbers below `n`.
pub open spec fn below(n: nat) -> Set<usize> {
    Set::new(|x: usize| x < n)
}

/// There are `n` numbers below `n`.
pub proof fn lemma_below(n: nat)
    requires
        n <= usize::MAX + 1,
    ensures
        below(n).finite(),
        below(n).len() == n,
    decreases n,
{
    if n == 0 {
        assert(below(0) =~= Set::<usize>::empty());
    } else {
        lemma_below((n - 1) as nat);
        assert(below(n) =~= below((n - 1) as nat).insert((n - 1) as usize));
    }
}

/// Different numbers below `n` are at most `n`.
pub proof fn lemma_distinct_below(numbers: Seq<usize>, n: nat)
    requires
        n <= usize::MAX + 1,
        numbers.no_duplicates(),
        forall|i: int| 0 <= i < numbers.len() ==> (#[trigger] numbers[i]) < n,
    ensures
        numbers.len() <= n,
{
    lemma_below(n);
    numbers.unique_seq_to_set();
    assert(numbers.to_set().subset_of(below(n))) by {
        assert forall|x: usize| numbers.to_set().contains(x) implies below(n).contains(x) by {
            let i = choose|i: int| 0 <= i < numbers.len() && numbers[i] == x;
            assert(numbers[i] < n);
        }
    }
    lemma_len_subset(numbers.to_set(), below(n));
}

/// A partition of `count` states has at most `count` classes.
pub proof fn lemma_classes_bounded(classes: Seq<Seq<usize>>, class_of: Seq<int>, count: nat)
    requires
        partitions(classes, class_of, count),
        count <= usize::MAX + 1,
    ensures
        classes.len() <= count,
{
    let firsts = Seq::new(classes.len(), |c: int| classes[c][0]);
    assert forall|c: int, d: int|
        0 <= c < firsts.len() && 0 <= d < firsts.len() && c != d implies firsts[c] != firsts[d] by {
        assert(class_of[classes[c][0] as int] == c);
        assert(class_of[classes[d][0] as int] == d);
    }
    assert forall|c: int| 0 <= c < firsts.len() implies (#[trigger] firsts[c]) < count by {
        assert(classes[c][0] < count);
    }
    lemma_distinct_below(firsts, count);
}

/// Where no pair of states must still be parted, states of one class reach
/// states of one class by every word.
pub proof fn lemma_stable_run(
    machine: Machine,
    class_of: Seq<int>,
    s: usize,
    t: usize,
    word: Seq<char>,
)
    requires
        machine.well_formed(),
        class_of.len() == machine.states.len(),
        forall|s: usize, t: usize, a: char| !#[trigger] splits(machine, class_of, s, t, a),
        s < class_of.len(),
        t < class_of.len(),
        class_of[s as int] == class_of[t as int],
        machine.reads(word),
    ensures
        machine.run(s, word) < class_of.len(),
        machine.run(t, word) < class_of.len(),
        class_of[machine.run(s, word) as int] == class_of[machine.run(t, word) as int],
    decreases word.len(),
{
    if word.len() > 0 {
        let a = word[0];
        assert(machine.symbols.contains(a));
        machine.lemma_total(s, a);
        machine.lemma_total(t, a);
        assert(!splits(machine, class_of, s, t, a));
        assert forall|i: int| 0 <= i < word.drop_first().len() implies machine.symbols.contains(
            #[trigger] word.drop_first()[i],
        ) by {
            assert(word.drop_first()[i] == word[i + 1]);
        }
        lemma_stable_run(machine, class_of, machine.next(s, a), machine.next(t, a), word.drop_first());
    }
}

/// Where no pair of states must still be parted, the classes are those of
/// the states that accept the same words.
pub proof fn lemma_stable_classes(machine: Machine, class_of: Seq<int>, s: usize, t: usize)
    requires
        machine.well_formed(),
        class_of.len() == machine.states.len(),
        separates(machine, class_of),
        forall|s: usize, t: usize, a: char| !#[trigger] splits(machine, class_of, s, t, a),
        s < class_of.len(),
        t < class_of.len(),
    ensures
        class_of[s as int] == class_of[t as int] <==> machine.equivalent(s, t),
{
    if class_of[s as int] == class_of[t as int] {
        if machine.distinguishable(s, t) {
            let word = choose|word: Seq<char>| machine.tells_apart(word, s, t);
            lemma_stable_run(machine, class_of, s, t, word);
            let s1 = machine.run(s, word);
            let t1 = machine.run(t, word);
            assert(class_of[s1 as int] == class_of[t1 as int]);
        }
    } else {
        assert(class_of[s as int] != class_of[t as int]);
    }
}

/// Taking an entry from the front of the work opens a round: every pair that
/// the entry provided for will be parted by the class of the entry.
pub proof fn lemma_round_opens(
    machine: Machine,
    classes: Seq<Seq<usize>>,
    class_of: Seq<int>,
    work: Seq<(usize, char)>,
)
    requires
        partitions(classes, class_of, machine.states.len()),
        machine.well_formed(),
        machine.states.len() <= usize::MAX,
        separates(machine, class_of),
        names(machine, work, classes.len()),
        work.len() > 0,
        watched(machine, class_of, work, Seq::empty(), work[0].1, 0, 0),
    ensures
        watched(
            machine,
            class_of,
            work.drop_first(),
            classes[work[0].0 as int],
            work[0].1,
            0,
            classes.len() as int,
        ),
        tells(machine, classes[work[0].0 as int], machine.states.len()),
        names(machine, work.drop_first(), classes.len()),
{
    let entry = work[0];
    let rest = work.drop_first();
    let splitter = classes[entry.0 as int];
    lemma_classes_bounded(classes, class_of, machine.states.len());
    assert forall|e: (usize, char)| work.contains(e) implies e == entry || rest.contains(e) by {
        let i = choose|i: int| 0 <= i < work.len() && work[i] == e;
        if i > 0 {
            assert(rest[i - 1] == e);
        }
    }
    assert forall|u: usize| u < machine.states.len() implies (splitter.contains(u) <==> class_of[u as int]
        == entry.0) by {
        if splitter.contains(u) {
            let k = choose|k: int| 0 <= k < splitter.len() && splitter[k] == u;
            assert(class_of[classes[entry.0 as int][k] as int] == entry.0);
        }
        if class_of[u as int] == entry.0 {
            assert(classes[class_of[u as int]].contains(u));
        }
    }
    assert forall|s: usize, t: usize, a: char| #[trigger]
        splits(machine, class_of, s, t, a) implies queued(machine, class_of, rest, s, t, a) || (a
        == entry.1 && 0 <= class_of[s as int] < classes.len() && splitter.contains(
        machine.next(s, a),
    ) != splitter.contains(machine.next(t, a))) by {
        machine.lemma_total(s, a);
        machine.lemma_total(t, a);
        assert(queued(machine, class_of, work, s, t, a));
        let ns = machine.next(s, a);
        let nt = machine.next(t, a);
        let es = (class_of[ns as int] as usize, a);
        let et = (class_of[nt as int] as usize, a);
        if !rest.contains(es) && !rest.contains(et) {
            assert(es == entry || et == entry);
        }
    }
    assert forall|u: usize, v: usize|
        u < machine.states.len() && v < machine.states.len() && #[trigger] splitter.contains(u)
            && !(#[trigger] splitter.contains(v)) implies machine.distinguishable(u, v) by {
        assert(class_of[u as int] != class_of[v as int]);
    }
    assert forall|i: int| 0 <= i < rest.len() implies (#[trigger] rest[i]).0 < classes.len()
        && machine.symbols.contains(rest[i].1) by {
        assert(rest[i] == work[i + 1]);
    }
}

/// A class that the round does not part needs no providing for.
pub proof fn lemma_class_kept(
    machine: Machine,
    classes: Seq<Seq<usize>>,
    class_of: Seq<int>,
    work: Seq<(usize, char)>,
    splitter: Seq<usize>,
    symbol: char,
    class: int,
    upto: int,
)
    requires
        partitions(classes, class_of, machine.states.len()),
        watched(machine, class_of, work, splitter, symbol, class, upto),
        0 <= class < classes.len(),
        (forall|k: int|
            0 <= k < classes[class].len() ==> splitter.contains(
                machine.next(#[trigger] classes[class][k], symbol),
            )) || (forall|k: int|
            0 <= k < classes[class].len() ==> !splitter.contains(
                machine.next(#[trigger] classes[class][k], symbol),
            )),
    ensures
        watched(machine, class_of, work, splitter, symbol, class + 1, upto),
{
    assert forall|s: usize, t: usize, a: char| #[trigger]
        splits(machine, class_of, s, t, a) implies queued(machine, class_of, work, s, t, a) || (a
        == symbol && class + 1 <= class_of[s as int] < upto && splitter.contains(
        machine.next(s, a),
    ) != splitter.contains(machine.next(t, a))) by {
        if !queued(machine, class_of, work, s, t, a) && class_of[s as int] == class {
            assert(classes[class].contains(s));
            assert(classes[class].contains(t));
            let ks = choose|k: int| 0 <= k < classes[class].len() && classes[class][k] == s;
            let kt = choose|k: int| 0 <= k < classes[class].len() && classes[class][k] == t;
            assert(splitter.contains(machine.next(classes[class][ks], symbol))
                == splitter.contains(machine.next(classes[class][kt], symbol)));
        }
    }
}

/// Parting a class keeps what is known: the classes still respect the
/// states, and every pair that must still be parted is provided for.
pub proof fn lemma_class_parted(
    machine: Machine,
    class_of: Seq<int>,
    parted: Seq<int>,
    work: Seq<(usize, char)>,
    grown: Seq<(usize, char)>,
    splitter: Seq<usize>,
    symbol: char,
    class: int,
    upto: int,
    fresh: int,
)
    requires
        machine.well_formed(),
        class_of.len() == machine.states.len(),
        parted.len() == class_of.len(),
        forall|s: int| 0 <= s < class_of.len() ==> 0 <= #[trigger] class_of[s] < fresh,
        separates(machine, class_of),
        watched(machine, class_of, work, splitter, symbol, class, upto),
        tells(machine, splitter, machine.states.len()),
        machine.symbols.contains(symbol),
        0 <= class < upto <= fresh <= usize::MAX,
        forall|s: usize|
            s < class_of.len() ==> #[trigger] parted[s as int] == if class_of[s as int] == class
                && !splitter.contains(machine.next(s, symbol)) {
                fresh
            } else {
                class_of[s as int]
            },
        forall|e: (usize, char)| #[trigger] work.contains(e) ==> grown.contains(e),
        forall|a: char|
            #![trigger work.contains((class as usize, a))]
            #![trigger grown.contains((fresh as usize, a))]
            machine.symbols.contains(a) ==> {
                &&& work.contains((class as usize, a)) ==> grown.contains((fresh as usize, a))
                &&& grown.contains((class as usize, a)) || grown.contains((fresh as usize, a))
            },
    ensures
        separates(machine, parted),
        watched(machine, parted, grown, splitter, symbol, class + 1, upto),
{
    assert forall|s: usize, t: usize| s < parted.len() && t < parted.len() implies {
        &&& #[trigger] parted[s as int] == #[trigger] parted[t as int] ==> machine.finals.contains(s)
            == machine.finals.contains(t)
        &&& parted[s as int] != parted[t as int] ==> machine.distinguishable(s, t)
    } by {
        assert(class_of[s as int] == class_of[t as int] ==> machine.finals.contains(s)
            == machine.finals.contains(t));
        if parted[s as int] != parted[t as int] && class_of[s as int] == class_of[t as int] {
            let ns = machine.next(s, symbol);
            let nt = machine.next(t, symbol);
            machine.lemma_total(s, symbol);
            machine.lemma_total(t, symbol);
            if splitter.contains(ns) {
                assert(!splitter.contains(nt));
                assert(machine.distinguishable(ns, nt));
            } else {
                assert(splitter.contains(nt));
                assert(machine.distinguishable(nt, ns));
                machine.lemma_equivalence(ns, nt, nt);
            }
            let word = choose|word: Seq<char>| machine.tells_apart(word, ns, nt);
            machine.lemma_step_apart(s, t, symbol, word);
        }
    }
    assert forall|s: usize, t: usize, a: char| #[trigger]
        splits(machine, parted, s, t, a) implies queued(machine, parted, grown, s, t, a) || (a
        == symbol && class + 1 <= parted[s as int] < upto && splitter.contains(
        machine.next(s, a),
    ) != splitter.contains(machine.next(t, a))) by {
        machine.lemma_total(s, a);
        machine.lemma_total(t, a);
        let ns = machine.next(s, a);
        let nt = machine.next(t, a);
        assert(class_of[s as int] == class_of[t as int]);
        if class_of[ns as int] != class_of[nt as int] {
            assert(splits(machine, class_of, s, t, a));
            if queued(machine, class_of, work, s, t, a) {
                let u = if work.contains((class_of[ns as int] as usize, a)) {
                    ns
                } else {
                    nt
                };
                assert(work.contains((class_of[u as int] as usize, a)));
                if parted[u as int] != class_of[u as int] {
                    assert(class_of[u as int] == class);
                    assert(parted[u as int] == fresh);
                    assert(work.contains((class as usize, a)));
                    assert(grown.contains((fresh as usize, a)));
                } else {
                    assert(grown.contains((class_of[u as int] as usize, a)));
                }
            } else {
                assert(class_of[s as int] != class);
            }
        } else {
            assert(class_of[ns as int] == class);
            assert(grown.contains((class as usize, a)) || grown.contains((fresh as usize, a)));
        }
    }
}

/// What a sequence with one more item at its end holds.
pub proof fn lemma_push_contains<T>(s: Seq<T>, last: T)
    ensures
        forall|e: T| #[trigger] s.push(last).contains(e) <==> (s.contains(e) || e == last),
{
    assert forall|e: T| #[trigger] s.push(last).contains(e) <==> (s.contains(e) || e == last) by {
        if s.push(last).contains(e) {
            let i = choose|i: int| 0 <= i < s.push(last).len() && s.push(last)[i] == e;
            if i < s.len() {
                assert(s[i] == e);
            }
        }
        if s.contains(e) {
            let i = choose|i: int| 0 <= i < s.len() && s[i] == e;
            assert(s.push(last)[i] == e);
        }
        if e == last {
            assert(s.push(last)[s.len() as int] == e);
        }
    }
}

/// Parting a class in two gives a partition again: the states to be kept
/// stay in the class, and the others make a new class, the last.
pub proof fn lemma_partition_parted(
    classes: Seq<Seq<usize>>,
    class_of: Seq<int>,
    count: nat,
    class: int,
    parted: Seq<int>,
    keep: spec_fn(usize) -> bool,
    drop: spec_fn(usize) -> bool,
)
    requires
        partitions(classes, class_of, count),
        0 <= class < classes.len(),
        forall|x: usize| #[trigger] drop(x) == !keep(x),
        classes[class].filter(keep).len() > 0,
        classes[class].filter(drop).len() > 0,
        parted.len() == count,
        forall|s: int|
            0 <= s < count ==> #[trigger] parted[s] == if class_of[s] == class && !keep(
                s as usize,
            ) {
                classes.len() as int
            } else {
                class_of[s]
            },
    ensures
        partitions(
            classes.update(class, classes[class].filter(keep)).push(classes[class].filter(drop)),
            parted,
            count,
        ),
{
    let kept = classes[class].filter(keep);
    let dropped = classes[class].filter(drop);
    let after = classes.update(class, kept).push(dropped);
    let fresh = classes.len() as int;
    lemma_filter(classes[class], keep);
    lemma_filter(classes[class], drop);
    assert forall|s: int| 0 <= s < count implies 0 <= #[trigger] parted[s] < after.len()
        && after[parted[s]].contains(s as usize) by {
        assert(classes[class_of[s]].contains(s as usize));
        if class_of[s] == class {
            if keep(s as usize) {
                assert(kept.contains(s as usize));
            } else {
                assert(drop(s as usize));
                assert(dropped.contains(s as usize));
            }
        } else {
            assert(after[class_of[s]] == classes[class_of[s]]);
        }
    }
    assert forall|c: int, k: int| 0 <= c < after.len() && 0 <= k < after[c].len() implies (
    #[trigger] after[c][k]) < count && parted[after[c][k] as int] == c by {
        let x = after[c][k];
        if c == class {
            assert(kept.contains(x));
            assert(classes[class].contains(x));
            let l = choose|l: int| 0 <= l < classes[class].len() && classes[class][l] == x;
            assert(class_of[classes[class][l] as int] == class);
        } else if c == fresh {
            assert(dropped.contains(x));
            assert(classes[class].contains(x));
            let l = choose|l: int| 0 <= l < classes[class].len() && classes[class][l] == x;
            assert(class_of[classes[class][l] as int] == class);
            assert(drop(x));
        } else {
            assert(after[c] == classes[c]);
            assert(class_of[classes[c][k] as int] == c);
        }
    }
    assert forall|c: int| 0 <= c < after.len() implies (#[trigger] after[c]).len() > 0 && ascending(
        after[c],
    ) by {
        if c != class && c != fresh {
            assert(after[c] == classes[c]);
            assert(classes[c].len() > 0);
        } else {
            assert(ascending(classes[class]));
        }
    }
}

} // verus!
