//! Page state and the messages that drive it. Rendering and event plumbing
//! belong to the surrounding application; the state transitions here are
//! what it applies.

use vstd::prelude::*;
use crate::workspace::Model;

verus! {

/// Top-level event: which page's message arrived.
#[derive(Clone)]
pub enum Message {
    /// A navigation event.
    Navigate(NavigationMessage),
    /// An event for the home page.
    Home(HomeMessage),
    /// An event for the image-selection page.
    SelectImages(SelectImagesMessage),
    /// An event for the registration page.
    Register(RegisterMessage),
}

/// Events of the home page.
#[derive(Clone)]
pub enum HomeMessage {
    /// Create a new workspace.
    CreateWorkspace,
    /// Open an existing workspace.
    LoadWorkspace,
}

/// Events of the image-selection page.
#[derive(Clone)]
pub enum SelectImagesMessage {
    /// Step the counter up.
    Increment,
    /// Step the counter down.
    Decrement,
}

/// Events of the registration page.
#[derive(Clone)]
pub enum RegisterMessage {
    /// Step the counter up.
    Increment,
    /// Step the counter down.
    Decrement,
}

/// Navigation targets.
#[derive(Clone)]
pub enum NavigationMessage {
    /// Go to the home page.
    GoToHome,
    /// Go to the image-selection page.
    GoToSelectImages,
    /// Go to the registration page.
    GoToRegister,
}

/// Viewing orientation of a volume.
#[derive(Clone, Copy)]
pub enum Orientation {
    /// Slices across the vertical axis.
    Axial,
    /// Slices across the left-right axis.
    Sagittal,
    /// Slices across the front-back axis.
    Coronal,
}

/// The home page holds no state of its own.
pub struct HomePage;

impl HomePage {
    /// A fresh home page.
    pub fn new() -> HomePage {
        HomePage {  }
    }
}

/// The navigation bar holds no state of its own.
pub struct NavigatorBar;

impl NavigatorBar {
    /// A fresh navigation bar.
    pub fn new() -> NavigatorBar {
        NavigatorBar {  }
    }
}

/// The registration page: a counter stepped in tens and fives.
pub struct RegisterPage {
    /// The counter value.
    pub value: i64,
}

impl RegisterPage {
    /// A page with the counter at zero.
    pub fn new() -> (r: Self)
        ensures
            r.value == 0,
    {
        RegisterPage { value: 0 }
    }

    /// Applies one event: ten up or five down.
    pub fn update(&mut self, message: RegisterMessage)
        requires
            old(self).value + 10 <= i64::MAX,
            old(self).value - 5 >= i64::MIN,
        ensures
            message is Increment ==> final(self).value == old(self).value + 10,
            message is Decrement ==> final(self).value == old(self).value - 5,
    {
        match message {
            RegisterMessage::Increment => {
                self.value = self.value + 10;
            },
            RegisterMessage::Decrement => {
                self.value = self.value - 5;
            },
        }
    }
}

/// The image-selection page: a counter stepped by one.
pub struct SelectImagesPage {
    /// The counter value.
    pub value: i64,
}

impl SelectImagesPage {
    /// A page with the counter at zero.
    pub fn new() -> (r: Self)
        ensures
            r.value == 0,
    {
        SelectImagesPage { value: 0 }
    }

    /// Applies one event: one up or one down.
    pub fn update(&mut self, message: SelectImagesMessage)
        requires
            old(self).value + 1 <= i64::MAX,
            old(self).value - 1 >= i64::MIN,
        ensures
            message is Increment ==> final(self).value == old(self).value + 1,
            message is Decrement ==> final(self).value == old(self).value - 1,
    {
        match message {
            SelectImagesMessage::Increment => {
                self.value = self.value + 1;
            },
            SelectImagesMessage::Decrement => {
                self.value = self.value - 1;
            },
        }
    }
}

/// The home page's controller.
pub struct HomeController {
    /// Display name.
    pub name: String,
    /// Display age.
    pub age: u32,
}

impl HomeController {
    /// The default controller.
    pub fn new() -> (r: HomeController)
        ensures
            r.name@ == "Arthur"@,
            r.age == 42,
    {
        HomeController { name: "Arthur".to_owned(), age: 42 }
    }

    /// Steps the displayed age; the model is left untouched.
    pub fn increment_age(&mut self, model: &mut Model)
        requires
            old(self).age < u32::MAX,
        ensures
            final(self).age == old(self).age + 1,
            final(self).name == old(self).name,
            *final(model) == *old(model),
    {
        self.age = self.age + 1;
    }
}

} // verus!
