//! Name conventions the semantic checks share with the rest of the compiler.
use crate::fmt::str_chars;
use vstd::prelude::*;

verus! {

/// Whether a field name is the placeholder given to an anonymous embedded
/// union, whose members are promoted into the enclosing class: it starts
/// with `$anon`.
pub fn is_anon_field(name: &str) -> (r: bool)
    ensures
        r == (name@.len() >= 5 && name@.take(5) == "$anon"@),
{
    proof {
        reveal_strlit("$anon");
    }
    let cs = str_chars(name);
    if cs.len() < 5 {
        return false;
    }
    let r = cs[0] == '$' && cs[1] == 'a' && cs[2] == 'n' && cs[3] == 'o' && cs[4] == 'n';
    proof {
        if r {
            assert(name@.take(5) =~= "$anon"@);
        } else {
            if name@.take(5) == "$anon"@ {
                assert(name@.take(5)[0] == '$');
                assert(name@.take(5)[1] == 'a');
                assert(name@.take(5)[2] == 'n');
                assert(name@.take(5)[3] == 'o');
                assert(name@.take(5)[4] == 'n');
            }
        }
    }
    r
}

} // verus!
