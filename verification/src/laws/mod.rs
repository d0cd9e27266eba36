//! What holds of the library as a whole, stated in terms of what goes in and what
//! comes out: of titles, of lists, of what was watched and of what is offered.

pub mod browsing;
pub mod credit;
pub mod dates;
pub mod days;
pub mod drawing;
pub mod following;
pub mod lengths;
pub mod library;
pub mod lists;
pub mod numbering;
pub mod pages;
pub mod recommending;
pub mod seasons;
pub mod shows;
pub mod statistics;
pub mod storing;
pub mod texts;
pub mod titles;
pub mod vocabulary;
pub mod watching;
