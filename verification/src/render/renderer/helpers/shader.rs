use vstd::prelude::*;

verus! {

/// The main shader: the vertex stage, a line break, then the fragment stage.
pub fn main_shader_source(vert_shader: &str, frag_shader: &str) -> (r: String)
    ensures
        r@ == vert_shader@ + seq!['\n'] + frag_shader@,
{
    crate::render::renderer::shader::main_shader_source(vert_shader, frag_shader)
}

} // verus!
