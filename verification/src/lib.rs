use vstd::prelude::*;

pub mod interp;
pub mod render;

pub use render::BuildError;
pub use render::DockerRun;
pub use render::Launcher;
pub use render::RecordingLauncher;
pub use interp::InterpError;
pub use interp::MapResolver;
pub use interp::Resolver;
pub use interp::shell_interpolate;

verus! {

} // verus!
