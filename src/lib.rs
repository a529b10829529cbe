// Finite Markov decision processes and tabular learning on them, with integer
// weights, rewards and fixed-point estimates.

// Index and value of the extreme elements of a sequence.
pub mod miscellaneous;
// Weighted sampling over integer weights.
pub mod probability;
// The model: an arena of states with one sampler per action, and a simulation
// cursor over it.
pub mod markov;
// TD(0) policy evaluation and Q-learning.
pub mod algorithms;
