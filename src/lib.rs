//! Linked containers with a proved ownership discipline: a singly-linked
//! LIFO stack and a doubly-linked deque.
pub mod deque;
pub mod stack;
