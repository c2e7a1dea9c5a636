//! Which machinery runs a search.

use crate::vector;
use fearless_simd::Level;
use vstd::prelude::*;

verus! {

/// Selects the engine of kernels used to build a [`crate::MemchrN`].
#[derive(Copy, Clone, Debug)]
#[non_exhaustive]
pub enum Backend {
    /// The best kernels the running CPU supports.
    Auto,
    /// Word-at-a-time kernels, even on a target that has vectors.
    Swar,
    /// The kernels supported by an explicit [`Level`].
    Level(Level),
}

impl Default for Backend {
    /// The best kernels the running CPU supports.
    fn default() -> (backend: Backend)
        ensures
            backend == Backend::Auto,
    {
        Backend::Auto
    }
}

/// What runs the kernels.
#[derive(Copy, Clone, Debug)]
pub enum Engine {
    /// Vectors, at an instruction set level.
    Vector(Level),
    /// Words.
    Swar,
}

/// Whether `engine` may be what `backend` stands for.
///
/// With [`Backend::Auto`] it depends on the machine: the level that `Level::new` returns, or words
/// where that is the scalar fallback.
pub open spec fn serves(backend: Backend, engine: Engine) -> bool {
    match backend {
        Backend::Auto => exists|level: Level| #[trigger]
            call_ensures(Level::new, (), level) && engine == if level is Fallback {
                Engine::Swar
            } else {
                Engine::Vector(level)
            },
        Backend::Swar => engine == Engine::Swar,
        Backend::Level(level) => engine == Engine::Vector(level),
    }
}

/// The engine for a machine whose best level is `level`.
pub fn detected_engine(level: Level) -> (engine: Engine)
    ensures
        engine == if level is Fallback {
            Engine::Swar
        } else {
            Engine::Vector(level)
        },
{
    if level.is_fallback() {
        Engine::Swar
    } else {
        Engine::Vector(level)
    }
}

impl Backend {
    /// Picks the engine that the backend stands for.
    pub fn engine(self) -> (engine: Engine)
        ensures
            serves(self, engine),
    {
        match self {
            Backend::Auto => detected_engine(Level::new()),
            Backend::Swar => Engine::Swar,
            Backend::Level(level) => Engine::Vector(level),
        }
    }
}

impl Engine {
    /// The engine, if it can shuffle bytes; words otherwise.
    pub open spec fn shuffling(self) -> Engine {
        match self {
            Engine::Vector(level) => if vector::shuffles(level) {
                self
            } else {
                Engine::Swar
            },
            Engine::Swar => Engine::Swar,
        }
    }

    /// Replaces an engine that cannot shuffle bytes with words.
    #[must_use]
    pub fn with_byte_shuffle(self) -> (engine: Engine)
        ensures
            engine == self.shuffling(),
    {
        match self {
            Engine::Vector(level) => {
                if vector::has_byte_shuffle(level) {
                    Engine::Vector(level)
                } else {
                    Engine::Swar
                }
            },
            Engine::Swar => Engine::Swar,
        }
    }
}

} // verus!
