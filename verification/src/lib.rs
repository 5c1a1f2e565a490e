//! Classic graph algorithms built on a shared disjoint-set primitive:
//! minimum-spanning-tree construction (Kruskal), single-source and all-pairs
//! shortest paths (Dijkstra, Floyd-Warshall), and a few elementary
//! number-theory utilities (gcd, lcm, divisors, prime sieves, factorization).

pub mod minimum_spanning_tree;
pub mod number;
pub mod prime;
pub mod shortest_path;
pub mod union_find;
