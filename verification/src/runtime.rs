pub mod invalidation;
