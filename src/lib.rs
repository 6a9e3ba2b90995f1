pub mod alphabet;
pub mod timehash;
