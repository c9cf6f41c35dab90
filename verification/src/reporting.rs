//! The one piece of report formatting that is pure computation: prefixing
//! each line of a captured stream.  Coloring and terminal layout live with
//! the presentation code outside the library.

use vstd::prelude::*;

use crate::text::{spec_lines, split_lines};

verus! {

/// Each line of the text, with the prefix in front, concatenated in order.
pub open spec fn spec_prefix_join(lines: Seq<Seq<char>>, prefix: Seq<char>) -> Seq<char>
    decreases lines.len(),
{
    if lines.len() == 0 {
        Seq::empty()
    } else {
        spec_prefix_join(lines.drop_last(), prefix) + prefix + lines.last()
    }
}

/// Prefixes every line of a captured output stream.
pub fn prefix_lines(output: &str, prefix: &str) -> (r: String)
    ensures
        r@ == spec_prefix_join(spec_lines(output@), prefix@),
{
    let lines = split_lines(output);
    let n = lines.len();
    let mut r = String::new();
    let mut i: usize = 0;
    proof {
        assert(spec_lines(output@).subrange(0, 0) =~= Seq::<Seq<char>>::empty());
    }
    while i < n
        invariant
            i <= n,
            n == lines@.len(),
            crate::text::seq_views(lines@) == spec_lines(output@),
            r@ == spec_prefix_join(spec_lines(output@).subrange(0, i as int), prefix@),
        decreases n - i,
    {
        r.append(prefix);
        r.append(lines[i].as_str());
        proof {
            let ls = spec_lines(output@);
            assert(ls.subrange(0, i + 1).drop_last() =~= ls.subrange(0, i as int));
            assert(ls.subrange(0, i + 1).last() == lines@[i as int]@);
            assert(r@ =~= spec_prefix_join(ls.subrange(0, i + 1), prefix@));
        }
        i = i + 1;
    }
    proof {
        assert(spec_lines(output@).subrange(0, n as int) =~= spec_lines(output@));
    }
    r
}

} // verus!
