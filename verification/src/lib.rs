//! Small systems-programming components: a singly linked list, a debugger's
//! command parser and breakpoint bookkeeping, the decision logic of a load
//! balancing proxy, a hangman game and a word counter, each with its
//! behaviour stated as Verus contracts.
pub mod linked_list;
pub mod text;
pub mod random;
pub mod debugger_command;
pub mod inferior;
pub mod load_balancer;
pub mod hangman;
pub mod word_count;
pub mod http_message;
