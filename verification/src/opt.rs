pub mod cfg;
pub mod dominator;
pub mod mem2reg;
pub mod phi_elimination;
