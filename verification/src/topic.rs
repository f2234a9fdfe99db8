//! Topic strings: hierarchical addressing and raw prefix matching.

use vstd::prelude::*;

verus! {

/// The wildcard topic. A subscriber here receives every published message.
pub const ALL_SUBSCRIBING: &'static str = "*";

/// The characters of the wildcard topic.
pub open spec fn wildcard() -> Seq<char> {
    seq!['*']
}

/// `parent` is a strict dot-ancestor of `topic`: `topic` begins with `parent`
/// followed by a dot.
pub open spec fn is_ancestor(parent: Seq<char>, topic: Seq<char>) -> bool {
    parent.push('.').is_prefix_of(topic)
}

/// The strict ancestors of `topic`, deepest first: the text before each dot,
/// taken from the rightmost dot to the leftmost.
pub open spec fn ancestors(topic: Seq<char>) -> Seq<Seq<char>>
    decreases topic.len(),
{
    if topic.len() == 0 {
        Seq::empty()
    } else if topic.last() == '.' {
        seq![topic.drop_last()] + ancestors(topic.drop_last())
    } else {
        ancestors(topic.drop_last())
    }
}

/// The topics a publish of `message` reaches, in delivery order: the message
/// itself, its ancestors deepest first, then the wildcard unless the walk
/// already reached it.
pub open spec fn delivery_levels(message: Seq<char>) -> Seq<Seq<char>> {
    let walk = seq![message] + ancestors(message);
    if walk.contains(wildcard()) {
        walk
    } else {
        walk.push(wildcard())
    }
}

/// A topic is an ancestor in the walk exactly when it is a strict dot-ancestor.
proof fn lemma_ancestors_are_dot_prefixes(topic: Seq<char>, t: Seq<char>)
    ensures
        ancestors(topic).contains(t) <==> is_ancestor(t, topic),
    decreases topic.len(),
{
    if topic.len() == 0 {
        assert(!ancestors(topic).contains(t));
    } else {
        let p = topic.drop_last();
        lemma_ancestors_are_dot_prefixes(p, t);
        if topic.last() == '.' {
            let a = seq![p] + ancestors(p);
            if t == p {
                assert(a[0] == t);
                assert(t.push('.') =~= topic.subrange(0, t.push('.').len() as int));
            } else {
                if ancestors(p).contains(t) {
                    let j = choose|j: int| 0 <= j < ancestors(p).len() && ancestors(p)[j] == t;
                    assert(a[j + 1] == t);
                }
                if a.contains(t) {
                    let j = choose|j: int| 0 <= j < a.len() && a[j] == t;
                    assert(j != 0);
                    assert(ancestors(p)[j - 1] == t);
                }
                if is_ancestor(t, topic) {
                    if t.push('.').len() == topic.len() {
                        assert(t =~= p) by {
                            assert forall|i: int| 0 <= i < t.len() implies t[i] == p[i] by {
                                assert(t.push('.')[i] == topic[i]);
                            }
                        }
                    } else {
                        assert(t.push('.') =~= p.subrange(0, t.push('.').len() as int));
                    }
                }
                if is_ancestor(t, p) {
                    assert(t.push('.') =~= topic.subrange(0, t.push('.').len() as int));
                }
            }
        } else {
            if is_ancestor(t, topic) {
                let q = t.push('.');
                if q.len() == topic.len() {
                    assert(q[q.len() - 1] == topic[topic.len() - 1]);
                    assert(false);
                }
                assert(q =~= p.subrange(0, q.len() as int));
            }
            if is_ancestor(t, p) {
                assert(t.push('.') =~= topic.subrange(0, t.push('.').len() as int));
            }
        }
    }
}

/// Every ancestor is strictly shorter than the topic, and the walk gets
/// strictly shorter at each step.
proof fn lemma_ancestors_shrink(topic: Seq<char>)
    ensures
        forall|i: int| 0 <= i < ancestors(topic).len() ==> #[trigger] ancestors(topic)[i].len() < topic.len(),
        forall|i: int, j: int|
            0 <= i < j < ancestors(topic).len() ==> #[trigger] ancestors(topic)[i].len()
                > #[trigger] ancestors(topic)[j].len(),
    decreases topic.len(),
{
    if topic.len() > 0 {
        let p = topic.drop_last();
        lemma_ancestors_shrink(p);
        if topic.last() == '.' {
            let a = seq![p] + ancestors(p);
            assert forall|i: int| 0 <= i < a.len() implies #[trigger] a[i].len() < topic.len() by {
                if i > 0 {
                    assert(a[i] == ancestors(p)[i - 1]);
                }
            }
            assert forall|i: int, j: int| 0 <= i < j < a.len() implies #[trigger] a[i].len() > #[trigger] a[j].len() by {
                assert(a[j] == ancestors(p)[j - 1]);
                if i > 0 {
                    assert(a[i] == ancestors(p)[i - 1]);
                }
            }
        }
    }
}

/// Law of hierarchical addressing: a publish of `message` reaches topic `t`
/// exactly when `t` is the message itself, a dot-ancestor of it, or the
/// wildcard. Children and siblings are never reached.
pub proof fn lemma_delivery_reaches(message: Seq<char>, t: Seq<char>)
    ensures
        delivery_levels(message).contains(t) <==> (t == message || is_ancestor(t, message) || t
            == wildcard()),
{
    lemma_ancestors_are_dot_prefixes(message, t);
    let walk = seq![message] + ancestors(message);
    if walk.contains(t) {
        let j = choose|j: int| 0 <= j < walk.len() && walk[j] == t;
        if j > 0 {
            assert(ancestors(message)[j - 1] == t);
        }
    }
    if t == message {
        assert(walk[0] == t);
    }
    if ancestors(message).contains(t) {
        let j = choose|j: int| 0 <= j < ancestors(message).len() && ancestors(message)[j] == t;
        assert(walk[j + 1] == t);
    }
    let levels = delivery_levels(message);
    if !walk.contains(wildcard()) {
        assert(levels.last() == wildcard());
        if levels.contains(t) {
            let j = choose|j: int| 0 <= j < levels.len() && levels[j] == t;
            if j < walk.len() {
                assert(walk[j] == t);
            }
        }
        if walk.contains(t) {
            let j = choose|j: int| 0 <= j < walk.len() && walk[j] == t;
            assert(levels[j] == t);
        }
    }
}

/// Law: a publish reaches each topic at most once, because no topic appears
/// twice among the delivery levels.
pub proof fn lemma_delivery_levels_distinct(message: Seq<char>)
    ensures
        forall|i: int, j: int|
            0 <= i < j < delivery_levels(message).len() ==> #[trigger] delivery_levels(message)[i]
                != #[trigger] delivery_levels(message)[j],
{
    lemma_ancestors_shrink(message);
    let anc = ancestors(message);
    let walk = seq![message] + anc;
    let levels = delivery_levels(message);
    assert forall|i: int, j: int| 0 <= i < j < levels.len() implies #[trigger] levels[i] != #[trigger] levels[j] by {
        if j < walk.len() {
            assert(walk[j] == anc[j - 1]);
            if i == 0 {
                assert(anc[j - 1].len() < message.len());
            } else {
                assert(walk[i] == anc[i - 1]);
                assert(anc[i - 1].len() > anc[j - 1].len());
            }
        } else {
            assert(!walk.contains(wildcard()));
            assert(levels[j] == wildcard());
            assert(levels[i] == walk[i]);
        }
    }
}


/// Law of delivery order: a publish reaches the message's own topic first,
/// then its ancestors deepest first, and the wildcard last.
pub proof fn lemma_delivery_order(message: Seq<char>)
    ensures
        delivery_levels(message)[0] == message,
        delivery_levels(message).last() == wildcard(),
        forall|i: int, j: int|
            0 <= i < j < ancestors(message).len() ==> #[trigger] ancestors(message)[i].len()
                > #[trigger] ancestors(message)[j].len(),
        forall|i: int|
            0 <= i < ancestors(message).len() ==> delivery_levels(message)[i + 1] == #[trigger] ancestors(message)[i],
{
    lemma_ancestors_shrink(message);
    let anc = ancestors(message);
    let walk = seq![message] + anc;
    let levels = delivery_levels(message);
    assert(walk[0] == message);
    assert forall|i: int| 0 <= i < anc.len() implies levels[i + 1] == #[trigger] anc[i] by {
        assert(walk[i + 1] == anc[i]);
    }
    if walk.contains(wildcard()) {
        let j = choose|j: int| 0 <= j < walk.len() && walk[j] == wildcard();
        if j == 0 {
            // The message is the wildcard itself, which has no dot.
            assert(message == wildcard());
            assert(message.last() == '*');
            assert(message.drop_last() =~= Seq::<char>::empty());
            assert(ancestors(message.drop_last()) =~= Seq::<Seq<char>>::empty());
            assert(anc =~= Seq::<Seq<char>>::empty());
        } else {
            // The wildcard is an ancestor, so the message begins with `*.`;
            // a later, shorter ancestor would be empty, which needs a leading dot.
            assert(anc[j - 1] == wildcard());
            if j < walk.len() - 1 {
                let last = anc[anc.len() - 1];
                assert(anc[j - 1].len() > last.len());
                assert(last =~= Seq::<char>::empty());
                assert(anc.contains(last));
                lemma_ancestors_are_dot_prefixes(message, last);
                assert(anc.contains(anc[j - 1]));
                lemma_ancestors_are_dot_prefixes(message, wildcard());
                assert(last.push('.')[0] == '.');
                assert(wildcard().push('.')[0] == '*');
                assert(message[0] == '.');
                assert(message[0] == '*');
            }
        }
    }
}

/// True when `s` begins with `prefix` (a raw character prefix, not aware of
/// dots).
pub fn has_prefix(s: &str, prefix: &str) -> (r: bool)
    ensures
        r == prefix@.is_prefix_of(s@),
{
    let n = s.unicode_len();
    let k = prefix.unicode_len();
    if k > n {
        return false;
    }
    let mut i: usize = 0;
    while i < k
        invariant
            k == prefix@.len(),
            n == s@.len(),
            k <= n,
            i <= k,
            forall|j: int| 0 <= j < i ==> prefix@[j] == s@[j],
        decreases k - i,
    {
        if s.get_char(i) != prefix.get_char(i) {
            assert(prefix@[i as int] != s@.subrange(0, k as int)[i as int]);
            return false;
        }
        i = i + 1;
    }
    assert(prefix@ =~= s@.subrange(0, k as int));
    true
}

/// The topics a publish of `message` reaches, in delivery order.
pub fn hierarchy_levels(message: &str) -> (levels: Vec<String>)
    ensures
        levels@.map_values(|s: String| s@) == delivery_levels(message@),
{
    let n = message.unicode_len();
    let mut out: Vec<String> = Vec::new();
    out.push(message.to_owned());
    let ghost m = message@;
    let mut i: usize = n;
    assert(m.take(n as int) =~= m);
    assert(out@.map_values(|s: String| s@) =~= seq![m]);
    while i > 0
        invariant
            n == m.len(),
            m == message@,
            i <= n,
            seq![m] + ancestors(m) == out@.map_values(|s: String| s@) + ancestors(m.take(i as int)),
        decreases i,
    {
        let ghost before = out@.map_values(|s: String| s@);
        assert(m.take(i as int).drop_last() =~= m.take(i - 1));
        if message.get_char(i - 1) == '.' {
            let part = message.substring_char(0, i - 1);
            out.push(part.to_owned());
            assert(out@.map_values(|s: String| s@) =~= before.push(m.take(i - 1)));
            assert(part@ =~= m.take(i - 1));
            assert(before + (seq![m.take(i - 1)] + ancestors(m.take(i - 1))) =~= before.push(
                m.take(i - 1),
            ) + ancestors(m.take(i - 1)));
        }
        i = i - 1;
    }
    assert(m.take(0) =~= Seq::<char>::empty());
    assert(ancestors(m.take(0)) =~= Seq::<Seq<char>>::empty());
    assert(out@.map_values(|s: String| s@) + Seq::<Seq<char>>::empty() =~= out@.map_values(
        |s: String| s@,
    ));
    let star = ALL_SUBSCRIBING;
    proof {
        reveal_strlit("*");
    }
    assert(star@ =~= wildcard());
    let star_text: String = star.to_owned();
    let mut found = false;
    let mut j: usize = 0;
    let ghost walk = out@.map_values(|s: String| s@);
    while j < out.len()
        invariant
            walk == out@.map_values(|s: String| s@),
            j <= out.len(),
            star@ == wildcard(),
            star_text@ == wildcard(),
            found <==> exists|t: int| 0 <= t < j && walk[t] == wildcard(),
        decreases out.len() - j,
    {
        if out[j] == star_text {
            found = true;
        }
        assert(walk[j as int] == out@[j as int]@);
        j = j + 1;
    }
    if !found {
        out.push(star_text);
        assert(out@.map_values(|s: String| s@) =~= walk.push(wildcard()));
        assert(!walk.contains(wildcard()));
    } else {
        proof {
            let t = choose|t: int| 0 <= t < j && walk[t] == wildcard();
            assert(walk.contains(wildcard()));
        }
    }
    out
}

} // verus!
