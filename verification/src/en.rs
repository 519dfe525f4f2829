//! The English rule catalog: the worked hour-and-meridiem rule.

pub mod hour;
