//! Integer core of a software-rendered orbit viewer: pixel-buffer raster
//! primitives, the HUD reticle, the star-field random stream, the
//! orbit-path polyline, flat body colours and the wireframe mesh grammar.

pub mod draw;
pub mod hud;
pub mod mesh;
pub mod orbits;
pub mod shading;
pub mod skybox;

pub use draw::{draw_disc, draw_line, put_px, rgb, BG};
pub use hud::reticle;
pub use mesh::{Mesh, VertexFields};
pub use orbits::draw_path;
pub use shading::{flat_color, PlanetKind};
pub use skybox::{draw_star_marker, rng, star_samples};
