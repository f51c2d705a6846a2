//! Upcoming reminders (birthdays, saint days, anniversaries, holidays and
//! one-off events) derived from plain-text records.

pub mod date;
pub mod error;
pub mod event;
pub mod holiday;
pub mod person;
pub mod record;
pub mod special;
pub mod text;
