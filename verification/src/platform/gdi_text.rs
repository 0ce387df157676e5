use vstd::prelude::*;

use crate::text::{chars_of, string_of};

verus! {

/// A stretch of text drawn with one font family of the fallback list.
#[derive(Clone, Debug)]
pub struct GdiTextRun {
    pub family_index: usize,
    pub text: String,
}

/// The runs of `chars` when character `i` is drawn with family `families[i]`: each run
/// gathers consecutive characters of one family.
pub open spec fn runs_of(chars: Seq<char>, families: Seq<usize>) -> Seq<(usize, Seq<char>)>
    decreases chars.len(),
{
    if chars.len() == 0 {
        Seq::empty()
    } else {
        let previous = runs_of(chars.drop_last(), families);
        let family = families[chars.len() - 1];
        let c = chars.last();
        if previous.len() > 0 && previous.last().0 == family {
            previous.update(previous.len() - 1, (family, previous.last().1.push(c)))
        } else {
            previous.push((family, seq![c]))
        }
    }
}

/// The text of `runs` one after the other.
pub open spec fn runs_text(runs: Seq<(usize, Seq<char>)>) -> Seq<char>
    decreases runs.len(),
{
    if runs.len() == 0 {
        Seq::empty()
    } else {
        runs_text(runs.drop_last()) + runs.last().1
    }
}

/// The runs of a text as the renderer draws them: `families[i]` is the family chosen for
/// the text's character `i`.
pub fn gdi_text_runs(text: &str, families: &[usize]) -> (r: Vec<GdiTextRun>)
    requires
        families@.len() >= text@.len(),
    ensures
        r@.len() == runs_of(text@, families@).len(),
        forall|k: int|
            0 <= k < r@.len() ==> (#[trigger] r@[k]).family_index == runs_of(text@, families@)[k].0
                && r@[k].text@ == runs_of(text@, families@)[k].1,
{
    let chars = chars_of(text);
    let mut runs: Vec<(usize, Vec<char>)> = Vec::new();
    let mut i: usize = 0;
    while i < chars.len()
        invariant
            i <= chars@.len(),
            chars@ == text@,
            families@.len() >= chars@.len(),
            runs@.len() == runs_of(chars@.take(i as int), families@).len(),
            forall|k: int|
                0 <= k < runs@.len() ==> (#[trigger] runs@[k]).0 == runs_of(chars@.take(i as int), families@)[k].0
                    && runs@[k].1@ == runs_of(chars@.take(i as int), families@)[k].1,
        decreases chars@.len() - i,
    {
        let family = families[i];
        let c = chars[i];
        let ghost before = runs_of(chars@.take(i as int), families@);
        assert(chars@.take(i + 1).drop_last() =~= chars@.take(i as int));
        assert(chars@.take(i + 1).last() == c);
        let n = runs.len();
        if n > 0 && runs[n - 1].0 == family {
            let (f, mut last) = runs.pop().unwrap();
            let ghost old_last = last@;
            last.push(c);
            runs.push((f, last));
            proof {
                let after = runs_of(chars@.take(i + 1), families@);
                assert(after == before.update(before.len() - 1, (family, before.last().1.push(c))));
                assert forall|k: int| 0 <= k < runs@.len() implies (#[trigger] runs@[k]).0 == after[k].0
                    && runs@[k].1@ == after[k].1 by {
                    if k == n - 1 {
                        assert(old_last == before[k].1);
                    }
                }
            }
        } else {
            let mut fresh: Vec<char> = Vec::new();
            fresh.push(c);
            runs.push((family, fresh));
            proof {
                let after = runs_of(chars@.take(i + 1), families@);
                assert(after == before.push((family, seq![c])));
                assert(fresh@ =~= seq![c]);
            }
        }
        i = i + 1;
    }
    assert(chars@.take(i as int) =~= text@);
    let mut result: Vec<GdiTextRun> = Vec::new();
    let mut k: usize = 0;
    while k < runs.len()
        invariant
            k <= runs@.len(),
            runs@.len() == runs_of(text@, families@).len(),
            forall|j: int|
                0 <= j < runs@.len() ==> (#[trigger] runs@[j]).0 == runs_of(text@, families@)[j].0
                    && runs@[j].1@ == runs_of(text@, families@)[j].1,
            result@.len() == k,
            forall|j: int|
                0 <= j < k ==> (#[trigger] result@[j]).family_index == runs_of(text@, families@)[j].0
                    && result@[j].text@ == runs_of(text@, families@)[j].1,
        decreases runs@.len() - k,
    {
        let text = string_of(&runs[k].1);
        result.push(GdiTextRun { family_index: runs[k].0, text });
        k = k + 1;
    }
    result
}

/// The runs of a text put back together give the text, every run holds characters of
/// its family only, and neighbouring runs use different families.
pub proof fn law_text_runs_partition(chars: Seq<char>, families: Seq<usize>)
    requires
        families.len() >= chars.len(),
    ensures
        runs_text(runs_of(chars, families)) == chars,
        forall|k: int|
            0 <= k < runs_of(chars, families).len() ==> #[trigger] runs_of(chars, families)[k].1.len() > 0,
        forall|k: int|
            0 < k < runs_of(chars, families).len() ==> #[trigger] runs_of(chars, families)[k].0
                != runs_of(chars, families)[k - 1].0,
    decreases chars.len(),
{
    if chars.len() > 0 {
        let rest = chars.drop_last();
        law_text_runs_partition(rest, families);
        let previous = runs_of(rest, families);
        let family = families[chars.len() - 1];
        let c = chars.last();
        let runs = runs_of(chars, families);
        if previous.len() > 0 && previous.last().0 == family {
            let body = previous.drop_last();
            assert(runs.drop_last() =~= body);
            assert(runs_text(previous) == runs_text(body) + previous.last().1);
            assert(runs_text(runs) == runs_text(body) + previous.last().1.push(c));
            assert(runs_text(previous) + seq![c] =~= runs_text(body) + previous.last().1.push(c));
            assert(rest.push(c) =~= chars);
        } else {
            assert(runs.drop_last() =~= previous);
            assert(runs_text(runs) == runs_text(previous) + seq![c]);
            assert(rest + seq![c] =~= chars);
        }
    } else {
        assert(chars =~= Seq::<char>::empty());
    }
}

} // verus!
