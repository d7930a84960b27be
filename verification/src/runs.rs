//! Maximal runs of characters of one class.
use crate::word_sequence::CharClass;
use vstd::prelude::*;

verus! {

/// A run of characters of one class: the characters `start..end` of a text.
pub struct Run {
    pub start: int,
    pub end: int,
    pub class: CharClass,
}

/// The maximal runs of one class in a sequence of classes, from left to
/// right. Each place belongs to exactly one of them, and two neighbouring
/// runs differ in class.
pub open spec fn runs_of(classes: Seq<CharClass>) -> Seq<Run>
    decreases classes.len(),
{
    if classes.len() == 0 {
        Seq::empty()
    } else {
        let before = runs_of(classes.drop_last());
        let class = classes.last();
        if before.len() > 0 && before.last().class == class {
            before.drop_last().push(
                Run { start: before.last().start, end: classes.len() as int, class },
            )
        } else {
            before.push(Run { start: classes.len() - 1, end: classes.len() as int, class })
        }
    }
}

/// The classes of the characters of `text`.
pub open spec fn classes_of(text: Seq<char>) -> Seq<CharClass> {
    Seq::new(text.len(), |i: int| CharClass::of(text[i]))
}

/// The maximal runs of characters of one class that `text` is made of, from
/// left to right.
pub open spec fn runs(text: Seq<char>) -> Seq<Run> {
    runs_of(classes_of(text))
}

/// Whether `run` is a run of `classes`: it is not empty, lies within the
/// sequence, and all its places have its class.
pub open spec fn is_run(classes: Seq<CharClass>, run: Run) -> bool {
    &&& 0 <= run.start < run.end <= classes.len()
    &&& forall|i: int| run.start <= i < run.end ==> #[trigger] classes[i] == run.class
}

/// Whether `rs` splits `classes` into maximal runs: the runs lie one after
/// the other and cover the sequence, and no two neighbours have the same
/// class.
pub open spec fn splits(classes: Seq<CharClass>, rs: Seq<Run>) -> bool {
    &&& classes.len() == 0 <==> rs.len() == 0
    &&& rs.len() > 0 ==> rs[0].start == 0 && rs.last().end == classes.len()
    &&& forall|r: int| 0 <= r < rs.len() ==> is_run(classes, #[trigger] rs[r])
    &&& forall|q: int, r: int|
        0 <= q && q + 1 == r && r < rs.len() ==> (#[trigger] rs[q]).end == (#[trigger] rs[r]).start
            && rs[q].class != rs[r].class
}

/// A run of a sequence is a run of the sequence with one more class.
proof fn lemma_is_run_push(classes: Seq<CharClass>, class: CharClass, run: Run)
    requires
        is_run(classes, run),
    ensures
        is_run(classes.push(class), run),
{
    assert forall|i: int| run.start <= i < run.end implies #[trigger] classes.push(class)[i]
        == run.class by {
        assert(classes[i] == run.class);
    }
}

/// One more class of the class of the last run makes the last run longer.
proof fn lemma_splits_extend(classes: Seq<CharClass>, rs: Seq<Run>, class: CharClass)
    requires
        splits(classes, rs),
        rs.len() > 0,
        rs.last().class == class,
    ensures
        splits(
            classes.push(class),
            rs.drop_last().push(
                Run { start: rs.last().start, end: classes.len() as int + 1, class },
            ),
        ),
{
    let longer = classes.push(class);
    let last = Run { start: rs.last().start, end: classes.len() as int + 1, class };
    let all = rs.drop_last().push(last);
    assert(is_run(classes, rs[rs.len() - 1]));
    assert forall|r: int| 0 <= r < all.len() implies is_run(longer, #[trigger] all[r]) by {
        if r < all.len() - 1 {
            assert(all[r] == rs[r]);
            lemma_is_run_push(classes, class, rs[r]);
        } else {
            assert forall|i: int| last.start <= i < last.end implies #[trigger] longer[i]
                == class by {
                if i < classes.len() {
                    assert(classes[i] == class);
                }
            }
        }
    }
    assert forall|q: int, r: int| 0 <= q && q + 1 == r && r < all.len() implies (
    #[trigger] all[q]).end == (#[trigger] all[r]).start && all[q].class != all[r].class by {
        assert(all[q] == rs[q]);
        assert(rs[q].end == rs[r].start);
    }
    assert(all[0].start == rs[0].start);
}

/// One more class of another class than that of the last run begins a run.
proof fn lemma_splits_append(classes: Seq<CharClass>, rs: Seq<Run>, class: CharClass)
    requires
        splits(classes, rs),
        rs.len() > 0 ==> rs.last().class != class,
    ensures
        splits(
            classes.push(class),
            rs.push(Run { start: classes.len() as int, end: classes.len() as int + 1, class }),
        ),
{
    let longer = classes.push(class);
    let last = Run { start: classes.len() as int, end: classes.len() as int + 1, class };
    let all = rs.push(last);
    assert forall|r: int| 0 <= r < all.len() implies is_run(longer, #[trigger] all[r]) by {
        if r < all.len() - 1 {
            assert(all[r] == rs[r]);
            lemma_is_run_push(classes, class, rs[r]);
        }
    }
    assert forall|q: int, r: int| 0 <= q && q + 1 == r && r < all.len() implies (
    #[trigger] all[q]).end == (#[trigger] all[r]).start && all[q].class != all[r].class by {
        assert(all[q] == rs[q]);
        if r < all.len() - 1 {
            assert(all[r] == rs[r]);
        }
    }
    if rs.len() > 0 {
        assert(all[0] == rs[0]);
    }
}

/// The runs of a sequence of classes split it into maximal runs.
pub proof fn lemma_runs_of(classes: Seq<CharClass>)
    ensures
        splits(classes, runs_of(classes)),
    decreases classes.len(),
{
    if classes.len() > 0 {
        let shorter = classes.drop_last();
        let before = runs_of(shorter);
        lemma_runs_of(shorter);
        assert(classes =~= shorter.push(classes.last()));
        if before.len() > 0 && before.last().class == classes.last() {
            lemma_splits_extend(shorter, before, classes.last());
        } else {
            lemma_splits_append(shorter, before, classes.last());
        }
    }
}

} // verus!
