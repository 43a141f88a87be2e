//! The status registers of IEEE 488.2: the standard event status register
//! with its enable mask, and the enable mask of the status byte.

use vstd::prelude::*;

verus! {

/// The bits of the standard event status register.
#[derive(Debug, Clone, Copy, PartialEq, Eq)]
pub struct EventStatus {
    bits: u8,
}

/// The bits of the status byte.
#[derive(Debug, Clone, Copy, PartialEq, Eq)]
pub struct StatusByte {
    bits: u8,
}

impl EventStatus {
    pub const POWER_ON: u8 = 0x80;

    pub const USER_REQUEST: u8 = 0x40;

    pub const COMMAND_ERROR: u8 = 0x20;

    pub const EXECUTION_ERROR: u8 = 0x10;

    pub const DEVICE_DEPENDENT_ERROR: u8 = 0x08;

    pub const QUERY_ERROR: u8 = 0x04;

    pub const REQUEST_CONTROL: u8 = 0x02;

    pub const OPERATION_COMPLETE: u8 = 0x01;

    /// The bits as a number.
    pub closed spec fn view(&self) -> u8 {
        self.bits
    }

    /// No bit set.
    pub fn empty() -> (r: EventStatus)
        ensures
            r@ == 0,
    {
        EventStatus { bits: 0 }
    }

    /// Every bit set.
    pub fn all() -> (r: EventStatus)
        ensures
            r@ == 0xff,
    {
        EventStatus { bits: 0xff }
    }

    /// The bits as a number.
    pub fn bits(&self) -> (r: u8)
        ensures
            r == self@,
    {
        self.bits
    }

    /// The register with the given bits.
    pub fn from_bits_retain(bits: u8) -> (r: EventStatus)
        ensures
            r@ == bits,
    {
        EventStatus { bits }
    }

    /// Tells whether all bits of `mask` are set.
    pub fn contains(&self, mask: u8) -> (r: bool)
        ensures
            r == (self@ & mask == mask),
    {
        self.bits & mask == mask
    }

    /// Sets the bits of `mask`, or clears them.
    pub fn set(&mut self, mask: u8, value: bool)
        ensures
            final(self)@ == if value {
                old(self)@ | mask
            } else {
                old(self)@ & !mask
            },
    {
        if value {
            self.bits = self.bits | mask;
        } else {
            self.bits = self.bits & !mask;
        }
    }

    /// The bits that are set in both.
    pub fn intersection(self, other: EventStatus) -> (r: EventStatus)
        ensures
            r@ == self@ & other@,
    {
        EventStatus { bits: self.bits & other.bits }
    }
}

impl StatusByte {
    pub const OPERATION_STATUS: u8 = 0x80;

    pub const REQUEST_SERVICE: u8 = 0x40;

    pub const STANDARD_EVENT: u8 = 0x20;

    pub const MESSAGE_AVAILABLE: u8 = 0x10;

    pub const DATA_QUESTIONABLE: u8 = 0x08;

    pub const ERROR_EVENT_QUEUE: u8 = 0x04;

    pub const IMPLEMENTOR_DEFINED_1: u8 = 0x02;

    pub const IMPLEMENTOR_DEFINED_0: u8 = 0x01;

    /// The bits as a number.
    pub closed spec fn view(&self) -> u8 {
        self.bits
    }

    /// No bit set.
    pub fn empty() -> (r: StatusByte)
        ensures
            r@ == 0,
    {
        StatusByte { bits: 0 }
    }

    /// Every bit set.
    pub fn all() -> (r: StatusByte)
        ensures
            r@ == 0xff,
    {
        StatusByte { bits: 0xff }
    }

    /// The bits as a number.
    pub fn bits(&self) -> (r: u8)
        ensures
            r == self@,
    {
        self.bits
    }

    /// The status byte with the given bits.
    pub fn from_bits_retain(bits: u8) -> (r: StatusByte)
        ensures
            r@ == bits,
    {
        StatusByte { bits }
    }

    /// Sets the bits of `mask`.
    pub fn insert(&mut self, mask: u8)
        ensures
            final(self)@ == old(self)@ | mask,
    {
        self.bits = self.bits | mask;
    }
}

/// The status registers of a device.
#[derive(Debug, Clone, Copy, PartialEq, Eq)]
pub struct StatusRegisters {
    pub event_status: EventStatus,
    /// The event enable register contains a mask which bits of the event status
    /// will be considered.
    pub event_status_enable: EventStatus,
    /// The status enable register contains a mask which bits of the status byte
    /// will be considered.
    pub status_byte_enable: StatusByte,
}

impl Default for StatusRegisters {
    /// The registers of a device that was just switched on: the power-on
    /// event is set, every event is enabled, and every bit of the status
    /// byte but the two that the implementor defines.
    fn default() -> (r: StatusRegisters)
        ensures
            r.event_status@ == 0x80,
            r.event_status_enable@ == 0xff,
            r.status_byte_enable@ == 0xfc,
    {
        let mask: u8 = 0xff & !StatusByte::IMPLEMENTOR_DEFINED_1 & !StatusByte::IMPLEMENTOR_DEFINED_0;
        assert(mask == 0xfc) by (bit_vector)
            requires
                mask == 0xffu8 & !0x02u8 & !0x01u8,
        ;
        StatusRegisters {
            event_status: EventStatus::from_bits_retain(EventStatus::POWER_ON),
            event_status_enable: EventStatus::all(),
            status_byte_enable: StatusByte::from_bits_retain(mask),
        }
    }
}

impl StatusRegisters {
    /// The status byte for the registers as they are and for the given
    /// number of errors in the queue: bit 2 where there are errors, and bit
    /// 5 where an enabled event is set.
    pub open spec fn status_byte_spec(self, error_count: nat) -> u8 {
        let queue: u8 = if error_count > 0 {
            0x04
        } else {
            0
        };
        let event: u8 = if self.event_status@ & self.event_status_enable@ != 0 {
            0x20
        } else {
            0
        };
        queue | event
    }

    /// `*OPC`: sets the operation complete bit.
    pub fn set_operation_complete(&mut self)
        ensures
            final(self).event_status@ == old(self).event_status@ | 0x01,
            final(self).event_status_enable == old(self).event_status_enable,
            final(self).status_byte_enable == old(self).status_byte_enable,
    {
        self.event_status.set(EventStatus::OPERATION_COMPLETE, true);
    }

    /// `*OPC?`: sets the operation complete bit and tells that it is set.
    pub fn operation_complete(&mut self) -> (r: bool)
        ensures
            r,
            final(self).event_status@ == old(self).event_status@ | 0x01,
            final(self).event_status_enable == old(self).event_status_enable,
            final(self).status_byte_enable == old(self).status_byte_enable,
    {
        self.set_operation_complete();
        let bits = self.event_status.bits();
        assert(bits & 0x01 == 0x01) by (bit_vector)
            requires
                exists|before: u8| bits == before | 0x01,
        ;
        self.event_status.contains(EventStatus::OPERATION_COMPLETE)
    }

    /// `*CLS`: clears the event status register.
    pub fn clear_event_status(&mut self)
        ensures
            final(self).event_status@ == 0,
            final(self).event_status_enable == old(self).event_status_enable,
            final(self).status_byte_enable == old(self).status_byte_enable,
    {
        self.event_status = EventStatus::empty();
    }

    /// `*ESE?`: the event status enable register.
    pub fn event_status_enable(&self) -> (r: u8)
        ensures
            r == self.event_status_enable@,
    {
        self.event_status_enable.bits()
    }

    /// `*ESE <value>`: sets the event status enable register.
    pub fn set_event_status_enable(&mut self, value: u8)
        ensures
            final(self).event_status_enable@ == value,
            final(self).event_status == old(self).event_status,
            final(self).status_byte_enable == old(self).status_byte_enable,
    {
        self.event_status_enable = EventStatus::from_bits_retain(value);
    }

    /// `*ESR?`: the enabled bits of the event status register, which is
    /// cleared by reading it.
    pub fn event_status_register(&mut self) -> (r: u8)
        ensures
            r == old(self).event_status@ & old(self).event_status_enable@,
            final(self).event_status@ == 0,
            final(self).event_status_enable == old(self).event_status_enable,
            final(self).status_byte_enable == old(self).status_byte_enable,
    {
        let value = self.event_status;
        let mask = self.event_status_enable;
        let result = value.intersection(mask).bits();
        // Clear the event status register after reading (per SCPI standard)
        self.event_status = EventStatus::empty();
        result
    }

    /// `*STB?`: the status byte. The event status register stays as it is.
    pub fn status_byte(&self, error_count: usize) -> (r: u8)
        ensures
            r == self.status_byte_spec(error_count as nat),
    {
        let mut status = StatusByte::empty();
        if error_count > 0 {
            status.insert(StatusByte::ERROR_EVENT_QUEUE);
        }
        if self.event_status.intersection(self.event_status_enable).bits() != 0 {
            status.insert(StatusByte::STANDARD_EVENT);
        }
        assert(0u8 | 0x04u8 == 0x04u8 && 0u8 | 0x20u8 == 0x20u8 && 0x04u8 | 0u8 == 0x04u8 && 0u8
            | 0u8 == 0u8) by (bit_vector);
        status.bits()
    }

    /// `*SRE?`: the status byte enable register.
    pub fn status_byte_enable(&self) -> (r: u8)
        ensures
            r == self.status_byte_enable@,
    {
        self.status_byte_enable.bits()
    }

    /// `*SRE <value>`: sets the status byte enable register.
    pub fn set_status_byte_enable(&mut self, value: u8)
        ensures
            final(self).status_byte_enable@ == value,
            final(self).event_status == old(self).event_status,
            final(self).event_status_enable == old(self).event_status_enable,
    {
        self.status_byte_enable = StatusByte::from_bits_retain(value);
    }
}

} // verus!
