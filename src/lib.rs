use vstd::prelude::*;

pub mod assoc;
pub mod bot;
pub mod choice;
pub mod text;

pub use bot::{Pizzabot, PreferPrev, Start};
pub use choice::{Bias, ChoiceKey, ChoiceMap, Uniform};
pub use text::is_valid_end;

verus! {

} // verus!
