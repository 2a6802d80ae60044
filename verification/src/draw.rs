use vstd::prelude::*;

verus! {

/// Downstream consumer of finished geometry: a rendering or export backend
/// implements `Sketch<T>` for every shape `T` it can draw. The sampling
/// engine never draws anything itself; callers hand its finished points to
/// such a backend, which is otherwise opaque to the engine.
pub trait Sketch<T> {
    fn sketch(&self, object: T);
}

} // verus!
