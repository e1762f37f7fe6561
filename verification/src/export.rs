//! The export of a recording: one snapshot a line.
use crate::text;
use vstd::prelude::*;

verus! {

/// Texts one below the other, each with the end of its line.
pub open spec fn jsonl(list: Seq<Seq<char>>) -> Seq<char>
    decreases list.len(),
{
    if list.len() == 0 {
        seq![]
    } else {
        list[0] + "\n"@ + jsonl(list.drop_first())
    }
}

/// Writes snapshots, each given as JSON in one line, one below the other.
pub fn run(list: &[String]) -> (r: String)
    ensures
        r@ == jsonl(text::texts(list@)),
{
    let ghost all = text::texts(list@);
    let n: usize = list.len();
    let mut out: Vec<char> = Vec::new();
    let mut i: usize = 0;
    assert(all.skip(0) =~= all);
    assert(out@ + jsonl(all) =~= jsonl(all));
    while i < n
        invariant
            i <= n == list@.len(),
            all == text::texts(list@),
            out@ + jsonl(all.skip(i as int)) == jsonl(all),
        decreases n - i,
    {
        let ghost before = out@;
        text::push_str(&mut out, &list[i]);
        text::push_str(&mut out, "\n");
        proof {
            let rest = all.skip(i as int);
            assert(rest[0] == list@[i as int]@);
            assert(rest.drop_first() =~= all.skip(i + 1));
            assert(out@ + jsonl(all.skip(i + 1)) =~= before + (rest[0] + "\n"@ + jsonl(
                all.skip(i + 1),
            )));
        }
        i += 1;
    }
    proof {
        assert(all.skip(n as int).len() == 0);
        assert(out@ + Seq::<char>::empty() =~= out@);
    }
    text::string_of(&out)
}

/// The lines of an export are the snapshots that were written, where none of them holds the end
/// of a line.
pub proof fn law_export_has_a_line_for_each_snapshot(list: Seq<Seq<char>>)
    requires
        forall|i: int|
            0 <= i < list.len() ==> !(#[trigger] list[i]).contains('\n') && !list[i].contains(
                '\r',
            ),
    ensures
        text::lines(jsonl(list)) == list,
    decreases list.len(),
{
    if list.len() == 0 {
        assert(text::lines(jsonl(list)) =~= list);
    } else {
        reveal_strlit("\n");
        let first = list[0];
        let rest = list.drop_first();
        assert forall|i: int| 0 <= i < rest.len() implies !(#[trigger] rest[i]).contains('\n')
            && !rest[i].contains('\r') by {
            assert(rest[i] == list[i + 1]);
        }
        law_export_has_a_line_for_each_snapshot(rest);
        let s = jsonl(list);
        let k = first.len() as int;
        assert forall|j: int| 0 <= j < k implies s[j] != '\n' by {
            assert(s[j] == first[j]);
            assert(first.contains(first[j]));
        }
        assert(s[k] == '\n');
        text::lemma_upto_is(s, '\n', '\n', k);
        assert(s.take(k) =~= first);
        assert(s.skip(k + 1) =~= jsonl(rest));
        if k > 0 {
            assert(first.contains(first.last()));
        }
        assert(seq![first] + rest =~= list);
    }
}

} // verus!
