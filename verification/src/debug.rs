use vstd::prelude::*;

verus! {

/// Whether `keys` holds a key with the same text as `k`.
pub open spec fn has_key(keys: Seq<String>, k: String) -> bool {
    exists|i: int| 0 <= i < keys.len() && keys[i]@ == k@
}

/// The keys of `keys` that `now` holds (`held == true`) or does not hold (`held == false`), in
/// order.
pub open spec fn keys_where(keys: Seq<String>, now: Seq<String>, held: bool) -> Seq<String>
    decreases keys.len(),
{
    if keys.len() == 0 {
        keys
    } else if has_key(now, keys.last()) == held {
        keys_where(keys.drop_last(), now, held).push(keys.last())
    } else {
        keys_where(keys.drop_last(), now, held)
    }
}

/// `acc` followed by the keys of `now` it does not hold yet, each once, in order.
pub open spec fn with_new_keys(acc: Seq<String>, now: Seq<String>) -> Seq<String>
    decreases now.len(),
{
    if now.len() == 0 {
        acc
    } else {
        let a = with_new_keys(acc, now.drop_last());
        if has_key(a, now.last()) {
            a
        } else {
            a.push(now.last())
        }
    }
}

/// The keys held down, in the order they were pressed, and the keys released at the last update.
#[derive(Default)]
pub struct Keyboard {
    pressed_keys: Vec<String>,
    pushed_keys: Vec<String>,
}

impl Keyboard {
    pub closed spec fn spec_pressed(self) -> Seq<String> {
        self.pressed_keys@
    }

    pub closed spec fn spec_pushed(self) -> Seq<String> {
        self.pushed_keys@
    }

    /// Takes the keys held down now: the keys no longer held are the ones pushed, the keys still
    /// held keep their order, and new keys follow.
    pub fn update(&mut self, pressed_keys: &Vec<String>)
        ensures
            final(self).spec_pushed() == keys_where(old(self).spec_pressed(), pressed_keys@, false),
            final(self).spec_pressed() == with_new_keys(
                keys_where(old(self).spec_pressed(), pressed_keys@, true),
                pressed_keys@,
            ),
    {
        let old_pressed = &self.pressed_keys;
        let mut pushed: Vec<String> = Vec::new();
        let mut kept: Vec<String> = Vec::new();
        let mut i: usize = 0;
        while i < old_pressed.len()
            invariant
                i <= old_pressed.len(),
                pushed@ == keys_where(old_pressed@.take(i as int), pressed_keys@, false),
                kept@ == keys_where(old_pressed@.take(i as int), pressed_keys@, true),
            decreases old_pressed.len() - i,
        {
            assert(old_pressed@.take(i + 1).drop_last() =~= old_pressed@.take(i as int));
            let key = old_pressed[i].clone();
            if contains_key(pressed_keys, &key) {
                kept.push(key);
            } else {
                pushed.push(key);
            }
            i = i + 1;
        }
        assert(old_pressed@.take(old_pressed.len() as int) =~= old_pressed@);
        let ghost start = kept@;
        let mut j: usize = 0;
        while j < pressed_keys.len()
            invariant
                j <= pressed_keys.len(),
                kept@ == with_new_keys(start, pressed_keys@.take(j as int)),
            decreases pressed_keys.len() - j,
        {
            assert(pressed_keys@.take(j + 1).drop_last() =~= pressed_keys@.take(j as int));
            let key = pressed_keys[j].clone();
            if !contains_key(&kept, &key) {
                kept.push(key);
            }
            j = j + 1;
        }
        assert(pressed_keys@.take(pressed_keys.len() as int) =~= pressed_keys@);
        self.pushed_keys = pushed;
        self.pressed_keys = kept;
    }
}

/// Whether `keys` holds a key with the same text as `key`.
fn contains_key(keys: &Vec<String>, key: &String) -> (r: bool)
    ensures
        r == has_key(keys@, *key),
{
    let mut i: usize = 0;
    while i < keys.len()
        invariant
            i <= keys.len(),
            forall|j: int| 0 <= j < i ==> keys@[j]@ != key@,
        decreases keys.len() - i,
    {
        if keys[i] == *key {
            return true;
        }
        i = i + 1;
    }
    false
}

/// Whether `keys` is exactly the one key `expected`.
fn keys_are(keys: &Vec<String>, expected: &str) -> (r: bool)
    ensures
        r == (keys@.len() == 1 && keys@[0]@ == expected@),
{
    keys.len() == 1 && keys[0] == expected.to_owned()
}

/// Whether `keys` is exactly the one key `k`.
pub open spec fn only_key(keys: Seq<String>, k: Seq<char>) -> bool {
    keys.len() == 1 && keys[0]@ == k
}

/// Which debug overlays are shown and which group is selected, switched by key chords.
#[derive(Default)]
pub struct Control {
    pub show_field: bool,
    pub show_group_field: bool,
    pub show_group_planner: bool,
    pub selected_group: usize,
    keyboard: Keyboard,
}

impl Control {
    pub closed spec fn spec_keyboard(self) -> Keyboard {
        self.keyboard
    }

    pub closed spec fn spec_show_field(self) -> bool {
        self.show_field
    }

    pub closed spec fn spec_show_group_field(self) -> bool {
        self.show_group_field
    }

    pub closed spec fn spec_show_group_planner(self) -> bool {
        self.show_group_planner
    }

    pub closed spec fn spec_selected_group(self) -> int {
        self.selected_group as int
    }

    /// Whether releasing the keys would step the selected group out of the range of `usize`.
    pub open spec fn would_overflow(self, pressed_keys: Seq<String>) -> bool {
        let pressed = with_new_keys(keys_where(self.spec_keyboard().spec_pressed(), pressed_keys, true), pressed_keys);
        let pushed = keys_where(self.spec_keyboard().spec_pressed(), pressed_keys, false);
        only_key(pressed, "LShift"@) && ((only_key(pushed, "A"@) && self.spec_selected_group() == 0) || (only_key(
            pushed,
            "D"@,
        ) && self.spec_selected_group() == usize::MAX))
    }

    /// Takes the keys held down now. With LCtrl held, releasing Q, W or R toggles the field,
    /// group field or group planner overlay, showing one turning the other two off; with LShift
    /// held, releasing A or D selects the previous or next group.
    pub fn update(&mut self, pressed_keys: &Vec<String>)
        requires
            !old(self).would_overflow(pressed_keys@),
        ensures
            final(self).spec_keyboard().spec_pressed() == with_new_keys(
                keys_where(old(self).spec_keyboard().spec_pressed(), pressed_keys@, true),
                pressed_keys@,
            ),
            final(self).spec_keyboard().spec_pushed() == keys_where(old(self).spec_keyboard().spec_pressed(), pressed_keys@, false),
            ({
                let pressed = final(self).spec_keyboard().spec_pressed();
                let pushed = final(self).spec_keyboard().spec_pushed();
                let o = *old(self);
                let f = *final(self);
                if only_key(pressed, "LCtrl"@) && only_key(pushed, "Q"@) {
                    f.spec_show_field() == !o.spec_show_field() && f.spec_show_group_field() == (o.spec_show_group_field() && o.spec_show_field())
                        && f.spec_show_group_planner() == (o.spec_show_group_planner() && o.spec_show_field()) && f.spec_selected_group()
                        == o.spec_selected_group()
                } else if only_key(pressed, "LCtrl"@) && only_key(pushed, "W"@) {
                    f.spec_show_group_field() == !o.spec_show_group_field() && f.spec_show_field() == (o.spec_show_field() && o.spec_show_group_field())
                        && f.spec_show_group_planner() == (o.spec_show_group_planner() && o.spec_show_group_field()) && f.spec_selected_group()
                        == o.spec_selected_group()
                } else if only_key(pressed, "LCtrl"@) && only_key(pushed, "R"@) {
                    f.spec_show_group_planner() == !o.spec_show_group_planner() && f.spec_show_field() == (o.spec_show_field()
                        && o.spec_show_group_planner()) && f.spec_show_group_field() == (o.spec_show_group_field() && o.spec_show_group_planner())
                        && f.spec_selected_group() == o.spec_selected_group()
                } else if only_key(pressed, "LShift"@) && only_key(pushed, "A"@) {
                    f.spec_selected_group() == o.spec_selected_group() - 1 && f.spec_show_field() == o.spec_show_field() && f.spec_show_group_field()
                        == o.spec_show_group_field() && f.spec_show_group_planner() == o.spec_show_group_planner()
                } else if only_key(pressed, "LShift"@) && only_key(pushed, "D"@) {
                    f.spec_selected_group() == o.spec_selected_group() + 1 && f.spec_show_field() == o.spec_show_field() && f.spec_show_group_field()
                        == o.spec_show_group_field() && f.spec_show_group_planner() == o.spec_show_group_planner()
                } else {
                    f.spec_show_field() == o.spec_show_field() && f.spec_show_group_field() == o.spec_show_group_field() && f.spec_show_group_planner()
                        == o.spec_show_group_planner() && f.spec_selected_group() == o.spec_selected_group()
                }
            }),
    {
        proof {
            reveal_strlit("LCtrl");
            reveal_strlit("LShift");
            reveal_strlit("Q");
            reveal_strlit("W");
            reveal_strlit("R");
            reveal_strlit("A");
            reveal_strlit("D");
        }
        self.keyboard.update(pressed_keys);
        if keys_are(&self.keyboard.pressed_keys, "LCtrl") {
            if keys_are(&self.keyboard.pushed_keys, "Q") {
                self.show_field = !self.show_field;
                if self.show_field {
                    self.show_group_field = false;
                    self.show_group_planner = false;
                }
            } else if keys_are(&self.keyboard.pushed_keys, "W") {
                self.show_group_field = !self.show_group_field;
                if self.show_group_field {
                    self.show_field = false;
                    self.show_group_planner = false;
                }
            } else if keys_are(&self.keyboard.pushed_keys, "R") {
                self.show_group_planner = !self.show_group_planner;
                if self.show_group_planner {
                    self.show_field = false;
                    self.show_group_field = false;
                }
            }
        } else if keys_are(&self.keyboard.pressed_keys, "LShift") {
            if keys_are(&self.keyboard.pushed_keys, "A") {
                self.selected_group = self.selected_group - 1;
            } else if keys_are(&self.keyboard.pushed_keys, "D") {
                self.selected_group = self.selected_group + 1;
            }
        }
        proof {
            reveal_strlit("LCtrl");
            reveal_strlit("LShift");
            assert("LCtrl"@ != "LShift"@) by {
                assert("LCtrl"@.len() != "LShift"@.len());
            }
        }
    }
}

} // verus!
