//! awl's editor-independent core: document metadata, fuzzy ranking, key chord
//! grammar, local history, the file index and the in-memory filesystem seam.

use vstd::prelude::*;

pub mod text;
pub mod facets;
pub mod frontmatter;
pub mod fs;
pub mod fuzzy;
pub mod history;
pub mod hud;
pub mod lifetime;
pub mod index;
pub mod keyspec;
pub mod keymap;
pub mod keymap_defaults;
pub mod keytoken;
pub mod lava;

verus! {

} // verus!
