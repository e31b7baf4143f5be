use std::collections::VecDeque;
use std::time::Duration;
use xnote_core::plugin_protocol::PluginWireMessage;
use xnote_core::plugin_transport::PluginTransport;

struct MemoryTransport {
    sent: Vec<PluginWireMessage>,
    recv: VecDeque<PluginWireMessage>,
    terminated: bool,
}

impl MemoryTransport {
    fn new(messages: Vec<PluginWireMessage>) -> Self {
        Self {
            sent: Vec::new(),
            recv: VecDeque::from(messages),
            terminated: false,
        }
    }
}

impl PluginTransport for MemoryTransport {
    fn send(&mut self, message: &PluginWireMessage) -> Result<(), String> {
        self.sent.push(message.clone());
        Ok(())
    }

    fn receive(&mut self, _timeout: Duration) -> Result<Option<PluginWireMessage>, String> {
        Ok(self.recv.pop_front())
    }

    fn terminate(&mut self) {
        self.terminated = true;
    }
}

#[test]
fn memory_transport_send_receive_and_terminate() {
    let mut transport = MemoryTransport::new(vec![PluginWireMessage::ActivateResult {
        request_id: "req-1".to_string(),
        ok: true,
        error: None,
    }]);

    transport
        .send(&PluginWireMessage::Activate {
            request_id: "req-1".to_string(),
            event: "on_startup_finished".to_string(),
            timeout_ms: 10,
        })
        .expect("send message");

    let received = transport
        .receive(Duration::from_millis(1))
        .expect("receive message");
    assert!(matches!(
        received,
        Some(PluginWireMessage::ActivateResult { ok: true, .. })
    ));

    transport.terminate();
    assert!(transport.terminated);
    assert_eq!(transport.sent.len(), 1);
}
