//! A tree of lights: every light has a brightness and may have a light to
//! its left and one to its right.

use vstd::prelude::*;

verus! {

/// A light of the tree.
#[derive(Debug)]
pub struct Light {
    pub left: Option<Box<Light>>,
    pub right: Option<Box<Light>>,
    pub brightness: i32,
}

/// A tree of lights, with the number of lights that were put up and the
/// sum of the brightness that they were given.
#[derive(Debug)]
pub struct Tree {
    pub root: Box<Light>,
    pub total_lights: i32,
    pub total_brightness: i32,
}

impl Tree {
    /// A tree of one dark light.
    pub fn new() -> (r: Self)
        ensures
            *r.root == (Light { left: None, right: None, brightness: 0 }),
            r.total_lights == 1,
            r.total_brightness == 0,
    {
        Tree { root: Box::new(Light::new(0)), total_lights: 1, total_brightness: 0 }
    }
}

impl Light {
    /// A light of the given brightness with no light to either side.
    pub fn new(brightness: i32) -> (r: Self)
        ensures
            r == (Light { left: None, right: None, brightness }),
    {
        Light { left: None, right: None, brightness }
    }

    /// Gives the light its brightness.
    pub fn set(&mut self, brightness: i32)
        ensures
            *final(self) == (Light { brightness, ..*old(self) }),
    {
        self.brightness = brightness;
    }

    /// Puts a new light to the left, in place of what was there. A new
    /// light is dark, whatever brightness is asked for.
    pub fn create_left(&mut self, brightness: i32)
        ensures
            *final(self) == (Light {
                left: Some(Box::new(Light { left: None, right: None, brightness: 0 })),
                ..*old(self)
            }),
    {
        self.left = Some(Box::new(Light::new(0)));
    }

    /// Puts a new light to the right, in place of what was there. A new
    /// light is dark, whatever brightness is asked for.
    pub fn create_right(&mut self, brightness: i32)
        ensures
            *final(self) == (Light {
                right: Some(Box::new(Light { left: None, right: None, brightness: 0 })),
                ..*old(self)
            }),
    {
        self.right = Some(Box::new(Light::new(0)));
    }
}

} // verus!
