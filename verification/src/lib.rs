pub mod builder;
pub mod children;
pub mod ordering;
pub mod rules;
pub mod syntax;
