use vstd::prelude::*;
use vstd::string::StringExecFns;

verus! {

/// The main shader: the vertex stage, a line break, then the fragment stage.
pub fn main_shader_source(vert_shader: &str, frag_shader: &str) -> (r: String)
    ensures
        r@ == vert_shader@ + seq!['\n'] + frag_shader@,
{
    let mut source = String::from_str(vert_shader);
    source.append("\n");
    source.append(frag_shader);
    proof {
        reveal_strlit("\n");
    }
    source
}

} // verus!
